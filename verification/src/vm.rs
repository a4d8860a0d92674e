//! The virtual machine: the loaded classes, the heap, the static instances of the
//! classes and the call stacks, whose references are the roots of the collections.
use std::collections::HashMap;
use vstd::prelude::*;

use crate::abstract_object::{address_hash, hdr_hash, hdr_kind, hdr_size, lemma_hdr_bounds, lemma_make_hdr, make_hdr, AbstractObject, ObjectKind};
use crate::array_entry_type::{
    decode_entry_type, encode_entry_type, entry_type_word_is_reference, lemma_entry_type_roundtrip, ArrayEntryType,
};
use crate::native_methods::{
    array_copy, array_copy_outcome, builtin_entries, copied_words, double_to_raw_long_bits, float_to_raw_int_bits, get_class_loader,
    identity_hash_code, lemma_copied_entries, lemma_copied_header, native_array_copy, register_natives, MethodCallResult,
};
use crate::time::{get_current_time_millis, get_nano_time};
use crate::native_methods_registry::{lookup, EntryView, NativeMethod, NativeMethodsRegistry};
use crate::call_stack::{
    frame_moved, frame_refs, frames_refs, initial_locals, lemma_frames_refs_contains, lemma_frames_refs_moved, CallFrameReference,
    CallStack, stack_methods,
};
use crate::class::{Class, ClassId};
use crate::class_manager::{all_fields, class_of, class_wf, fields_fit, has_class, last_named, ClassManager};
use crate::class_and_method::ClassAndMethod;
use crate::exceptions::MethodCallFailed;
use crate::class_path::{ClassLoadingError, ClassPath, ClassPathEntry};
use crate::class::ClassFile;
use crate::class_loading::{ids_between, new_classes_built, new_classes_linked, referenced_names, refs_distinct, ClassResolution, ResolutionStep, ResolvedClass};
use crate::stack_trace_element::StackTraceElement;
use crate::gc::{entry_accepts, law_allocation_header, law_roots_survive_collection, storable, ObjectAllocator};
use crate::value::{
    default_value, expect_int_at, law_zero_word_reads_default, lemma_object_refs_contains, lemma_read_after_write, moved_refs,
    object_refs, read_entry_word, read_value_word, write_value_word, Value,
};
use crate::field_type::{BaseType, FieldType};
use crate::call_stack::CallFrame;
use crate::vm_error::VmError;

verus! {

broadcast use vstd::std_specs::hash::group_hash_axioms;

/// One megabyte, in bytes.
pub const ONE_MEGABYTE: usize = 1048576;

/// The memory that a virtual machine gets when none is asked for: one hundred megabytes.
pub const DEFAULT_MAX_MEMORY: usize = 104857600;

/// The default memory in megabytes, as it is written on a command line.
pub const DEFAULT_MAX_MEMORY_MB_STR: &'static str = "100";

/// The objects that the frames of the stacks refer to, first stack first.
pub open spec fn stacks_refs(stacks: Seq<CallStack>) -> Seq<AbstractObject>
    decreases stacks.len(),
{
    if stacks.len() == 0 {
        Seq::empty()
    } else {
        stacks_refs(stacks.drop_last()) + frames_refs(stacks.last().frames())
    }
}

/// Whether stack `t` is stack `s` with the references of its frames moved along `f`.
pub open spec fn stack_moved(s: CallStack, t: CallStack, f: Map<AbstractObject, AbstractObject>) -> bool {
    &&& t.frames().len() == s.frames().len()
    &&& forall|j: int| 0 <= j < s.frames().len() ==> frame_moved(#[trigger] s.frames()[j], t.frames()[j], f)
}

/// Whether heap `after` is heap `before` with a new allocation `o` holding `words`.
pub open spec fn heap_grew(before: ObjectAllocator, after: ObjectAllocator, o: AbstractObject, words: Seq<u64>) -> bool {
    &&& !before.is_object(o)
    &&& after.is_object(o)
    &&& before.keeps_objects(&after)
    &&& forall|p: AbstractObject| #[trigger] after.is_object(p) ==> before.is_object(p) || p == o
    &&& after.object_words(o) == words
    &&& after.free_bytes() == before.free_bytes() - 8 * words.len()
}

/// An instance of the virtual machine. Single-threaded, can execute one method (generally
/// `main`).
pub struct Vm {
    /// Responsible for allocating and storing classes
    class_manager: ClassManager,
    /// Responsible for allocating objects
    object_allocator: ObjectAllocator,
    /// Where class files are looked up
    class_path: ClassPath,
    /// Allocated call stacks
    call_stacks: Vec<CallStack>,
    /// One special instance of each initialized class holds its static fields
    statics: HashMap<u32, AbstractObject>,
    /// The ids of the classes that have a static instance, in the order of their
    /// initialization
    static_classes: Vec<u32>,
    /// What the fake `println` native method printed
    printed: Vec<Value>,
    /// The native methods
    native_methods_registry: NativeMethodsRegistry,
    /// The stack traces of the throwables, by their identity hash code: the methods of
    /// the frames, the last frame first
    throwable_call_stacks: HashMap<i32, Vec<ClassAndMethod>>,
}

impl Vm {
    /// The loaded classes.
    pub closed spec fn classes(&self) -> Seq<Class> {
        self.class_manager.table()
    }

    /// The heap.
    pub closed spec fn heap(&self) -> ObjectAllocator {
        self.object_allocator
    }

    /// The static instance of each initialized class, by class id.
    pub closed spec fn statics(&self) -> Map<u32, AbstractObject> {
        self.statics@
    }

    /// The ids of the initialized classes, in the order of their initialization.
    pub closed spec fn static_order(&self) -> Seq<u32> {
        self.static_classes@
    }

    /// The call stacks, in the order of their allocation.
    pub closed spec fn call_stacks(&self) -> Seq<CallStack> {
        self.call_stacks@
    }

    /// What the fake `println` native method printed, in order.
    pub closed spec fn printed_values(&self) -> Seq<Value> {
        self.printed@
    }

    /// The registered native methods.
    pub closed spec fn natives(&self) -> Seq<EntryView> {
        self.native_methods_registry.entries()
    }

    /// Whether the printing native method is registered.
    pub closed spec fn has_temp_print(&self) -> bool {
        self.native_methods_registry.has_temp_print()
    }

    /// The stack traces recorded for throwables, by identity hash code.
    pub closed spec fn throwable_stacks(&self) -> Map<i32, Seq<ClassAndMethod>> {
        self.throwable_call_stacks@.map_values(|v: Vec<ClassAndMethod>| v@)
    }

    /// Whether the native methods and the recorded stack traces are those of `other`.
    pub open spec fn same_natives(&self, other: &Vm) -> bool {
        &&& self.natives() == other.natives()
        &&& self.has_temp_print() == other.has_temp_print()
        &&& self.throwable_stacks() == other.throwable_stacks()
    }

    /// The number of entries of the class path.
    pub closed spec fn class_path_len(&self) -> nat {
        self.class_path.len()
    }

    /// The roots of a collection: the static instances, in the order of initialization,
    /// then the objects that the frames of the call stacks refer to.
    pub open spec fn roots(&self) -> Seq<AbstractObject> {
        self.static_roots() + stacks_refs(self.call_stacks())
    }

    /// The static instances, in the order of initialization of their classes.
    pub open spec fn static_roots(&self) -> Seq<AbstractObject> {
        self.static_order().map_values(|k: u32| self.statics()[k])
    }

    /// Whether the virtual machine is consistent: the heap is well formed for the loaded
    /// classes, each initialized class is listed once, and every root is an object of the
    /// heap.
    pub closed spec fn wf(&self) -> bool {
        &&& self.class_manager.wf()
        &&& self.object_allocator.wf(self.class_manager.table())
        &&& self.static_classes@.no_duplicates()
        &&& forall|k: u32| #[trigger] self.statics@.contains_key(k) <==> self.static_classes@.contains(k)
        &&& forall|k: int| 0 <= k < self.roots().len() ==> self.object_allocator.is_object(#[trigger] self.roots()[k])
        &&& forall|i: int, j: int|
            0 <= i < self.call_stacks@.len() && 0 <= j < self.call_stacks@[i].frames().len()
                ==> (#[trigger] self.call_stacks@[i].frames()[j]).class_and_method.valid(self.class_manager.table())
    }

    /// Whether `after` is `self` after a collection whose roots were those of `self`
    /// followed by `extra`: the heap kept a copy of each object reachable from them, `f`
    /// maps each to its copy, and the roots were moved along `f`.
    pub open spec fn collected_with(&self, after: &Vm, extra: Seq<AbstractObject>, f: Map<AbstractObject, AbstractObject>) -> bool {
        &&& after.classes() == self.classes()
        &&& self.heap().collected_into(&after.heap(), self.classes(), self.roots() + extra, f)
        &&& after.static_order() == self.static_order()
        &&& after.statics().dom() == self.statics().dom()
        &&& forall|k: u32| #[trigger] self.statics().contains_key(k) ==> after.statics()[k] == f[self.statics()[k]]
        &&& after.call_stacks().len() == self.call_stacks().len()
        &&& forall|i: int| 0 <= i < self.call_stacks().len() ==> stack_moved(#[trigger] self.call_stacks()[i], after.call_stacks()[i], f)
        &&& after.printed_values() == self.printed_values()
        &&& after.class_path_len() == self.class_path_len()
        &&& after.same_natives(self)
    }

    /// Whether `after` is `self` after a collection.
    pub open spec fn collected(&self, after: &Vm) -> bool {
        exists|f: Map<AbstractObject, AbstractObject>| self.collected_with(after, Seq::empty(), f)
    }

    /// Creates a virtual machine with at most `max_memory` bytes of heap.
    pub fn new(max_memory: usize) -> (res: Self)
        requires
            max_memory + 48 <= usize::MAX,
        ensures
            res.wf(),
            res.heap().region_capacity() == max_memory / 2,
            res.classes() == Seq::<Class>::empty(),
            res.statics() == Map::<u32, AbstractObject>::empty(),
            res.static_order() == Seq::<u32>::empty(),
            res.call_stacks() == Seq::<CallStack>::empty(),
            res.printed_values() == Seq::<Value>::empty(),
            res.class_path_len() == 0,
            res.natives() == builtin_entries(),
            res.has_temp_print(),
            res.throwable_stacks() == Map::<i32, Seq<ClassAndMethod>>::empty(),
            res.heap().free_bytes() == max_memory / 2,
            res.heap().used_bytes() == 0,
            forall|o: AbstractObject| !res.heap().is_object(o),
    {
        let mut native_methods_registry = NativeMethodsRegistry::new();
        register_natives(&mut native_methods_registry);
        proof {
            assert(native_methods_registry.entries() =~= builtin_entries());
        }
        let res = Vm {
            native_methods_registry,
            throwable_call_stacks: HashMap::new(),
            class_manager: ClassManager::new(),
            object_allocator: ObjectAllocator::with_maximum_memory(max_memory),
            class_path: ClassPath::new(),
            call_stacks: Vec::new(),
            statics: HashMap::new(),
            static_classes: Vec::new(),
            printed: Vec::new(),
        };
        proof {
            assert(res.roots() =~= Seq::<AbstractObject>::empty());
        }
        res
    }

    /// What the fake `println` native method printed, in order.
    pub fn printed(&self) -> (res: &[Value])
        ensures
            res@ == self.printed_values(),
    {
        self.printed.as_slice()
    }

    /// The class manager, whatever the state of the machine.
    pub(crate) fn class_manager_ref(&self) -> (res: &ClassManager)
        ensures
            res.table() == self.classes(),
    {
        &self.class_manager
    }

    /// The class manager.
    pub fn class_manager(&self) -> (res: &ClassManager)
        requires
            self.wf(),
        ensures
            res.wf(),
            res.table() == self.classes(),
    {
        &self.class_manager
    }

    /// The heap.
    pub fn object_allocator(&self) -> (res: &ObjectAllocator)
        ensures
            *res == self.heap(),
    {
        &self.object_allocator
    }

    /// The static instance of a class, if the class was initialized.
    pub fn get_static_instance(&self, class_id: ClassId) -> (res: Option<AbstractObject>)
        requires
            self.wf(),
        ensures
            self.statics().contains_key(class_id@) ==> res == Some(self.statics()[class_id@]),
            !self.statics().contains_key(class_id@) ==> res is None,
    {
        let key = class_id.as_u32();
        match self.statics.get(&key) {
            Some(o) => Some(*o),
            None => None,
        }
    }

    /// The loaded class with the given id; fails when there is none.
    pub fn get_class_by_id(&self, class_id: ClassId) -> (res: Result<&Class, VmError>)
        requires
            self.wf(),
        ensures
            has_class(self.classes(), class_id@ as int) ==> res == Ok::<&Class, VmError>(&class_of(self.classes(), class_id@ as int)),
            !has_class(self.classes(), class_id@ as int) ==> res == Err::<&Class, VmError>(VmError::ValidationException),
    {
        match self.class_manager.find_class_by_id(class_id) {
            Some(class) => Ok(class),
            None => Err(VmError::ValidationException),
        }
    }

    /// The class loaded last with the given name.
    pub fn find_class_by_name(&self, class_name: &str) -> (res: Option<&Class>)
        requires
            self.wf(),
        ensures
            match res {
                Some(c) => exists|i: int|
                    0 <= i < self.classes().len() && self.classes()[i] == *c && c.name@ == class_name@
                        && forall|j: int| i < j < self.classes().len() ==> self.classes()[j].name@ != class_name@,
                None => forall|j: int| 0 <= j < self.classes().len() ==> self.classes()[j].name@ != class_name@,
            },
    {
        self.class_manager.find_class_by_name(class_name)
    }

    /// Allocates a new, empty, call stack; returns its position.
    pub fn allocate_call_stack(&mut self) -> (res: usize)
        requires
            old(self).wf(),
        ensures
            final(self).wf(),
            res == old(self).call_stacks().len(),
            final(self).call_stacks().len() == old(self).call_stacks().len() + 1,
            final(self).call_stacks().drop_last() == old(self).call_stacks(),
            final(self).call_stacks().last().frames() == Seq::<CallFrame>::empty(),
            final(self).classes() == old(self).classes(),
            final(self).heap() == old(self).heap(),
            final(self).statics() == old(self).statics(),
            final(self).static_order() == old(self).static_order(),
            final(self).printed_values() == old(self).printed_values(),
            final(self).class_path_len() == old(self).class_path_len(),
            final(self).same_natives(old(self)),
    {
        let index = self.call_stacks.len();
        self.call_stacks.push(CallStack::new());
        proof {
            let stacks = self.call_stacks@;
            assert(stacks.drop_last() =~= old(self).call_stacks@);
            assert(frames_refs(stacks.last().frames()) =~= Seq::<AbstractObject>::empty());
            assert(stacks_refs(stacks) =~= stacks_refs(old(self).call_stacks@));
            assert(self.roots() =~= old(self).roots());
            assert forall|i: int, j: int|
                0 <= i < self.call_stacks@.len() && 0 <= j < self.call_stacks@[i].frames().len()
                    implies (#[trigger] self.call_stacks@[i].frames()[j]).class_and_method.valid(self.class_manager.table()) by {
                assert(i < old(self).call_stacks@.len());
                assert(self.call_stacks@[i] == old(self).call_stacks@[i]);
            }
        }
        index
    }
}

impl Vm {
    /// Whether an array of arrays can be reached from the roots of the machine followed by
    /// `extra`: the collector does not support those.
    pub open spec fn nested_arrays_reached(&self, extra: Seq<AbstractObject>) -> bool {
        !self.heap().gc_supported(self.classes(), self.roots() + extra)
    }

    /// Collects the garbage, with the roots of the machine followed by `extra`; `extra`
    /// is moved to the copies of its objects. Fails when an array of arrays can be
    /// reached, which the collector does not support.
    fn collect_with(&mut self, extra: &mut Vec<AbstractObject>) -> (res: Result<(), VmError>)
        requires
            old(self).wf(),
            forall|i: int| 0 <= i < old(extra)@.len() ==> old(self).heap().is_object(#[trigger] old(extra)@[i]),
        ensures
            final(self).wf(),
            old(self).nested_arrays_reached(old(extra)@) ==> res == Err::<(), VmError>(VmError::NotImplemented)
                && *final(self) == *old(self) && final(extra)@ == old(extra)@,
            !old(self).nested_arrays_reached(old(extra)@) ==> res is Ok && final(extra)@.len() == old(extra)@.len()
                && exists|f: Map<AbstractObject, AbstractObject>| {
                &&& old(self).collected_with(final(self), old(extra)@, f)
                &&& forall|i: int| 0 <= i < old(extra)@.len() ==> #[trigger] final(extra)@[i] == f[old(extra)@[i]]
            },
    {
        let ghost v0 = *self;
        let ghost extra0 = extra@;
        let ghost roots0 = self.roots() + extra@;
        let ghost statics0 = self.statics@;
        let ghost stacks0 = self.call_stacks@;
        // The static instances
        let mut roots: Vec<AbstractObject> = Vec::new();
        let mut i: usize = 0;
        while i < self.static_classes.len()
            invariant
                *self == v0,
                v0.wf(),
                i <= self.static_classes@.len(),
                roots@ == v0.static_roots().take(i as int),
            decreases self.static_classes@.len() - i,
        {
            let k = self.static_classes[i];
            proof {
                assert(self.static_classes@.contains(k));
            }
            let o = *self.statics.get(&k).unwrap();
            roots.push(o);
            i = i + 1;
            proof {
                assert(roots@ =~= v0.static_roots().take(i as int));
            }
        }
        proof {
            assert(v0.static_roots().take(i as int) =~= v0.static_roots());
        }
        let n_static = roots.len();
        // The references of the frames
        let mut s: usize = 0;
        while s < self.call_stacks.len()
            invariant
                *self == v0,
                s <= stacks0.len(),
                stacks0 == self.call_stacks@,
                n_static == v0.static_roots().len(),
                roots@ == v0.static_roots() + stacks_refs(stacks0.take(s as int)),
            decreases stacks0.len() - s,
        {
            let mut r = self.call_stacks[s].gc_roots();
            roots.append(&mut r);
            proof {
                assert(stacks0.take(s + 1).drop_last() =~= stacks0.take(s as int));
                assert(roots@ =~= v0.static_roots() + stacks_refs(stacks0.take(s + 1)));
            }
            s = s + 1;
        }
        proof {
            assert(stacks0.take(s as int) =~= stacks0);
        }
        let n_vm = roots.len();
        // The extra roots
        let mut e: usize = 0;
        while e < extra.len()
            invariant
                e <= extra@.len(),
                extra@ == extra0,
                n_vm == v0.roots().len(),
                roots@ == v0.roots() + extra0.take(e as int),
            decreases extra@.len() - e,
        {
            roots.push(extra[e]);
            e = e + 1;
            proof {
                assert(roots@ =~= v0.roots() + extra0.take(e as int));
            }
        }
        proof {
            assert(extra0.take(e as int) =~= extra0);
            assert(roots@ == roots0);
            assert forall|j: int| 0 <= j < roots0.len() implies self.object_allocator.is_object(#[trigger] roots0[j]) by {
                if j < v0.roots().len() {
                    assert(v0.roots()[j] == roots0[j]);
                } else {
                    assert(extra0[j - v0.roots().len()] == roots0[j]);
                }
            }
        }
        if self.object_allocator.reaches_nested_arrays(&roots, &self.class_manager) {
            return Err(VmError::NotImplemented);
        }
        self.object_allocator.do_garbage_collection(&mut roots, &self.class_manager)?;
        let ghost f = choose|f: Map<AbstractObject, AbstractObject>| {
            &&& v0.object_allocator.collected_into(&self.object_allocator, v0.class_manager.table(), roots0, f)
            &&& forall|j: int| 0 <= j < roots0.len() ==> #[trigger] roots@[j] == f[roots0[j]]
        };
        let ghost heap1 = self.object_allocator;
        proof {
            assert(v0.object_allocator.collected_into(&heap1, v0.class_manager.table(), roots0, f));
        }
        // Move the static instances
        let mut i: usize = 0;
        while i < self.static_classes.len()
            invariant
                self.object_allocator == heap1,
                self.class_manager == v0.class_manager,
                self.class_path == v0.class_path,
                self.printed == v0.printed,
                self.native_methods_registry == v0.native_methods_registry,
                self.throwable_call_stacks == v0.throwable_call_stacks,
                self.call_stacks@ == stacks0,
                self.static_classes@ == v0.static_classes@,
                v0.wf(),
                i <= self.static_classes@.len(),
                n_static == v0.static_roots().len(),
                roots@.len() == roots0.len(),
                roots0 == v0.roots() + extra0,
                forall|j: int| 0 <= j < roots0.len() ==> #[trigger] roots@[j] == f[roots0[j]],
                self.statics@.dom() == statics0.dom(),
                statics0 == v0.statics@,
                forall|k: u32|
                    #[trigger] statics0.contains_key(k) ==> self.statics@[k] == if self.static_classes@.take(i as int).contains(k) {
                        f[statics0[k]]
                    } else {
                        statics0[k]
                    },
            decreases self.static_classes@.len() - i,
        {
            let k = self.static_classes[i];
            proof {
                assert(roots0[i as int] == v0.static_roots()[i as int]);
                assert(self.static_classes@.contains(k));
            }
            self.statics.insert(k, roots[i]);
            proof {
                let order = self.static_classes@;
                assert(self.statics@.dom() =~= statics0.dom());
                assert forall|k2: u32| #[trigger] statics0.contains_key(k2) implies self.statics@[k2] == if order.take(i + 1).contains(k2) {
                    f[statics0[k2]]
                } else {
                    statics0[k2]
                } by {
                    if k2 == k {
                        assert(order.take(i + 1)[i as int] == k);
                    } else {
                        if order.take(i + 1).contains(k2) {
                            let j = choose|j: int| 0 <= j < i + 1 && #[trigger] order.take(i + 1)[j] == k2;
                            assert(order.take(i as int)[j] == k2);
                        }
                        if order.take(i as int).contains(k2) {
                            let j = choose|j: int| 0 <= j < i && #[trigger] order.take(i as int)[j] == k2;
                            assert(order.take(i + 1)[j] == k2);
                        }
                    }
                }
            }
            i = i + 1;
        }
        proof {
            assert(self.static_classes@.take(i as int) =~= self.static_classes@);
        }
        let ghost old_statics_moved = self.statics;
        // Move the references of the frames
        let mut s: usize = 0;
        let mut next: usize = n_static;
        while s < self.call_stacks.len()
            invariant
                self.object_allocator == heap1,
                self.class_manager == v0.class_manager,
                self.class_path == v0.class_path,
                self.printed == v0.printed,
                self.native_methods_registry == v0.native_methods_registry,
                self.throwable_call_stacks == v0.throwable_call_stacks,
                self.static_classes@ == v0.static_classes@,
                self.statics == old_statics_moved,
                s <= stacks0.len(),
                self.call_stacks@.len() == stacks0.len(),
                stacks0 == v0.call_stacks@,
                n_static == v0.static_roots().len(),
                roots@.len() == roots0.len(),
                roots0 == v0.static_roots() + stacks_refs(stacks0) + extra0,
                forall|j: int| 0 <= j < roots0.len() ==> #[trigger] roots@[j] == f[roots0[j]],
                next == n_static + stacks_refs(stacks0.take(s as int)).len(),
                forall|j: int| 0 <= j < s ==> stack_moved(#[trigger] stacks0[j], self.call_stacks@[j], f),
                forall|j: int| s <= j < stacks0.len() ==> #[trigger] self.call_stacks@[j] == stacks0[j],
            decreases stacks0.len() - s,
        {
            proof {
                lemma_stacks_refs_prefix(stacks0, s as int);
                let fr = frames_refs(stacks0[s as int].frames());
                assert forall|k: int| 0 <= k < fr.len() implies roots@[next + k] == f[#[trigger] fr[k]] by {
                    let sr = stacks_refs(stacks0.take(s as int));
                    assert(stacks_refs(stacks0)[sr.len() + k] == fr[k]);
                    assert(roots0[next + k] == fr[k]);
                }
            }
            let ghost before = self.call_stacks@;
            next = self.call_stacks[s].move_gc_roots(&roots, next, Ghost(f));
            proof {
                assert(stack_moved(stacks0[s as int], self.call_stacks@[s as int], f));
                assert forall|j: int| 0 <= j < s + 1 implies stack_moved(#[trigger] stacks0[j], self.call_stacks@[j], f) by {
                    if j < s {
                        assert(self.call_stacks@[j] == before[j]);
                    }
                }
            }
            s = s + 1;
        }
        // Move the extra roots
        let mut e: usize = 0;
        let ghost after_stacks = *self;
        while e < extra.len()
            invariant
                *self == after_stacks,
                e <= extra@.len(),
                extra@.len() == extra0.len(),
                n_vm == v0.roots().len(),
                roots@.len() == roots0.len(),
                roots0 == v0.roots() + extra0,
                forall|j: int| 0 <= j < roots0.len() ==> #[trigger] roots@[j] == f[roots0[j]],
                forall|j: int| 0 <= j < e ==> #[trigger] extra@[j] == f[extra0[j]],
            decreases extra@.len() - e,
        {
            proof {
                assert(roots0.len() == v0.roots().len() + extra0.len());
                assert(n_vm + e < roots@.len());
                assert(roots0[n_vm + e] == extra0[e as int]);
            }
            let roots_len = roots.len();
            assert(n_vm + e < roots_len);
            let index = n_vm + e;
            extra.set(e, roots[index]);
            e = e + 1;
        }
        proof {
            let after = *self;
            assert forall|k: u32| #[trigger] v0.statics().contains_key(k) implies after.statics()[k] == f[v0.statics()[k]] by {
                assert(self.static_classes@.contains(k));
            }
            lemma_stacks_refs_moved(stacks0, self.call_stacks@, f);
            assert(after.static_roots() =~= moved_refs(v0.static_roots(), f)) by {
                assert forall|j: int| 0 <= j < v0.static_roots().len() implies after.static_roots()[j] == f[v0.static_roots()[j]] by {
                    let k = v0.static_classes@[j];
                    assert(v0.static_classes@.contains(k));
                    assert(v0.statics@.contains_key(k));
                    assert(after.statics()[k] == f[v0.statics()[k]]);
                }
            }
            assert(after.roots() =~= moved_refs(v0.roots(), f));
            assert forall|k: int| 0 <= k < after.roots().len() implies self.object_allocator.is_object(#[trigger] after.roots()[k]) by {
                let p = roots0[k];
                assert(p == v0.roots()[k]);
                assert(v0.object_allocator.is_object(v0.roots()[k]));
                v0.object_allocator.lemma_root_reachable(v0.class_manager.table(), roots0, k);
                assert(f.dom().contains(p));
                assert(heap1.is_object(f[p]));
                assert(after.roots()[k] == f[p]);
            }
            assert forall|i: int, j: int|
                0 <= i < self.call_stacks@.len() && 0 <= j < self.call_stacks@[i].frames().len()
                    implies (#[trigger] self.call_stacks@[i].frames()[j]).class_and_method.valid(self.class_manager.table()) by {
                assert(stack_moved(stacks0[i], self.call_stacks@[i], f));
                assert(frame_moved(stacks0[i].frames()[j], self.call_stacks@[i].frames()[j], f));
            }
            assert(v0.collected_with(self, extra0, f));
        }
        Ok(())
    }
}

impl Vm {
    /// Whether `after` is `self` where room was made, if needed, for an allocation of
    /// `size` bytes: a collection runs when the heap has too few free bytes, unless the
    /// heap holds an array of arrays, which the collector does not support.
    /// Whether an allocation of `size` bytes can be made without overflowing the 32 bits
    /// that its header has for its size: it is smaller than 2^32 bytes, or larger than a
    /// region of the heap, so that it never fits.
    pub open spec fn size_storable(size: int, region_capacity: int) -> bool {
        size < 0x1_0000_0000 || size > region_capacity
    }

    pub open spec fn made_room(&self, after: &Vm, size: int) -> bool {
        if size <= self.heap().free_bytes() || self.nested_arrays_reached(Seq::empty()) {
            *after == *self
        } else {
            self.collected(after)
        }
    }

    /// As `made_room`, where the collection also keeps the object `keep`, which
    /// becomes `kept`.
    pub open spec fn made_room_keeping(&self, after: &Vm, size: int, keep: AbstractObject, kept: AbstractObject) -> bool {
        if size <= self.heap().free_bytes() || self.nested_arrays_reached(seq![keep]) {
            *after == *self && kept == keep
        } else {
            exists|f: Map<AbstractObject, AbstractObject>| self.collected_with(after, seq![keep], f) && kept == f[keep]
        }
    }

    /// Whether `after` is `self` where a new allocation `o` holding `words` was made,
    /// and nothing else changed.
    pub open spec fn allocated(&self, after: &Vm, o: AbstractObject, words: Seq<u64>) -> bool {
        &&& after.classes() == self.classes()
        &&& after.statics() == self.statics()
        &&& after.static_order() == self.static_order()
        &&& after.call_stacks() == self.call_stacks()
        &&& after.printed_values() == self.printed_values()
        &&& after.class_path_len() == self.class_path_len()
        &&& after.same_natives(self)
        &&& heap_grew(self.heap(), after.heap(), o, words)
    }

    /// Whether `after` is `self` where the new object `o`, holding `words`, became the
    /// static instance of `class`, and nothing else changed.
    pub open spec fn initialized(&self, after: &Vm, class: ClassId, o: AbstractObject, words: Seq<u64>) -> bool {
        &&& after.classes() == self.classes()
        &&& after.statics() == self.statics().insert(class@, o)
        &&& after.static_order() == if self.statics().contains_key(class@) {
            self.static_order()
        } else {
            self.static_order().push(class@)
        }
        &&& after.call_stacks() == self.call_stacks()
        &&& after.printed_values() == self.printed_values()
        &&& after.class_path_len() == self.class_path_len()
        &&& after.same_natives(self)
        &&& heap_grew(self.heap(), after.heap(), o, words)
    }

    /// The words of a new object of a class with `num_fields` fields at `o`.
    pub open spec fn new_object_words(o: AbstractObject, class: ClassId, num_fields: int) -> Seq<u64> {
        ObjectAllocator::fresh_words(
            make_hdr(0, 0, address_hash(o.address() as u64), (16 + 8 * num_fields) as u64),
            class@ as u64,
            None,
            2 + num_fields,
        )
    }

    /// The words of a new array of `length` entries of type `elements_type` at `o`.
    pub open spec fn new_array_words(o: AbstractObject, elements_type: ArrayEntryType, length: int) -> Seq<u64> {
        ObjectAllocator::fresh_words(
            make_hdr(1, 0, address_hash(o.address() as u64), (24 + 8 * length) as u64),
            encode_entry_type(elements_type),
            Some(length as u64),
            3 + length,
        )
    }

    /// Collects the garbage. Fails, changing nothing, when an array of arrays can be
    /// reached, which the collector does not support.
    pub fn run_garbage_collection(&mut self) -> (res: Result<(), VmError>)
        requires
            old(self).wf(),
        ensures
            final(self).wf(),
            old(self).nested_arrays_reached(Seq::empty()) ==> res == Err::<(), VmError>(VmError::NotImplemented)
                && *final(self) == *old(self),
            !old(self).nested_arrays_reached(Seq::empty()) ==> res is Ok && old(self).collected(final(self)),
    {
        let mut extra: Vec<AbstractObject> = Vec::new();
        let res = self.collect_with(&mut extra);
        proof {
            assert(extra@ == Seq::<AbstractObject>::empty()) by {
                assert(extra@.len() == 0);
            }
        }
        res
    }

    /// Allocates an object of a loaded class, with all its fields zero, collecting the
    /// garbage first when the heap has no room for it; `None` when there is still no
    /// room.
    pub fn new_object_of_class(&mut self, class: ClassId) -> (res: Option<AbstractObject>)
        requires
            old(self).wf(),
            has_class(old(self).classes(), class@ as int),
            Vm::size_storable(
                16 + 8 * class_of(old(self).classes(), class@ as int).num_total_fields,
                old(self).heap().region_capacity(),
            ),
        ensures
            final(self).wf(),
            ({
                let n = class_of(old(self).classes(), class@ as int).num_total_fields as int;
                let size = 16 + 8 * n;
                exists|mid: Vm| {
                    &&& #[trigger] old(self).made_room(&mid, size)
                    &&& match res {
                        Some(o) => size <= mid.heap().free_bytes() && mid.allocated(final(self), o, Vm::new_object_words(o, class, n)),
                        None => size > mid.heap().free_bytes() && *final(self) == mid,
                    }
                }
            }),
    {
        let ghost v0 = *self;
        let ghost n = class_of(self.classes(), class@ as int).num_total_fields as int;
        let ghost size = 16 + 8 * n;
        proof {
            self.object_allocator.lemma_free_bytes(self.class_manager.table());
        }
        proof {
            self.class_manager.lemma_wf();
            assert(class_wf(self.classes(), class@ - 1));
        }
        let class_ref = self.class_manager.find_class_by_id(class).unwrap();
        let fits = class_ref.num_total_fields <= (usize::MAX - 16) / 8;
        if fits {
            if let Some(o) = self.object_allocator.allocate(&self.class_manager, class_ref) {
                proof {
                    self.lemma_allocated_wf(v0, o);
                    assert(v0.made_room(&v0, size));
                    assert(v0.allocated(self, o, Vm::new_object_words(o, class, n)));
                }
                return Some(o);
            }
        }
        let mut extra: Vec<AbstractObject> = Vec::new();
        let collected = self.collect_with(&mut extra);
        proof {
            assert(extra@ == Seq::<AbstractObject>::empty()) by {
                assert(extra@.len() == 0);
            }
        }
        let ghost mid = *self;
        proof {
            assert(v0.made_room(&mid, size));
            self.object_allocator.lemma_free_bytes(self.class_manager.table());
        }
        if collected.is_err() || !fits {
            return None;
        }
        let class_ref = self.class_manager.find_class_by_id(class).unwrap();
        let res = self.object_allocator.allocate(&self.class_manager, class_ref);
        proof {
            if let Some(o) = res {
                self.lemma_allocated_wf(mid, o);
                assert(mid.allocated(self, o, Vm::new_object_words(o, class, n)));
            }
        }
        res
    }

    /// Allocates an array with all its entries zero, collecting the garbage first when the
    /// heap has no room for it; `None` when there is still no room.
    pub fn new_array(&mut self, elements_type: ArrayEntryType, length: usize) -> (res: Option<AbstractObject>)
        requires
            old(self).wf(),
            Vm::size_storable(24 + 8 * length, old(self).heap().region_capacity()),
        ensures
            final(self).wf(),
            ({
                let size = 24 + 8 * length;
                exists|mid: Vm| {
                    &&& #[trigger] old(self).made_room(&mid, size)
                    &&& match res {
                        Some(o) => size <= mid.heap().free_bytes() && mid.allocated(final(self), o, Vm::new_array_words(o, elements_type, length as int)),
                        None => size > mid.heap().free_bytes() && *final(self) == mid,
                    }
                }
            }),
    {
        let ghost v0 = *self;
        let ghost size = 24 + 8 * length;
        proof {
            self.object_allocator.lemma_free_bytes(self.class_manager.table());
        }
        let fits = length <= (usize::MAX - 24) / 8;
        if fits {
            if let Some(o) = self.object_allocator.allocate_array(&self.class_manager, elements_type, length) {
                proof {
                    self.lemma_allocated_wf(v0, o);
                    assert(v0.made_room(&v0, size));
                    assert(v0.allocated(self, o, Vm::new_array_words(o, elements_type, length as int)));
                }
                return Some(o);
            }
        }
        let mut extra: Vec<AbstractObject> = Vec::new();
        let collected = self.collect_with(&mut extra);
        proof {
            assert(extra@ == Seq::<AbstractObject>::empty()) by {
                assert(extra@.len() == 0);
            }
        }
        let ghost mid = *self;
        proof {
            assert(v0.made_room(&mid, size));
            self.object_allocator.lemma_free_bytes(self.class_manager.table());
        }
        if collected.is_err() || !fits {
            return None;
        }
        let res = self.object_allocator.allocate_array(&self.class_manager, elements_type, length);
        proof {
            if let Some(o) = res {
                self.lemma_allocated_wf(mid, o);
                assert(mid.allocated(self, o, Vm::new_array_words(o, elements_type, length as int)));
            }
        }
        res
    }

    /// A new allocation, all else unchanged, keeps the machine consistent.
    proof fn lemma_allocated_wf(&self, before: Vm, o: AbstractObject)
        requires
            before.wf(),
            self.object_allocator.wf(self.class_manager.table()),
            self.class_manager == before.class_manager,
            self.statics == before.statics,
            self.static_classes == before.static_classes,
            self.call_stacks == before.call_stacks,
            self.printed == before.printed,
            self.class_path == before.class_path,
            before.object_allocator.keeps_objects(&self.object_allocator),
        ensures
            self.wf(),
    {
        assert(self.roots() == before.roots());
        assert forall|k: int| 0 <= k < self.roots().len() implies self.object_allocator.is_object(#[trigger] self.roots()[k]) by {
            assert(before.object_allocator.is_object(before.roots()[k]));
        }
    }
}

impl Vm {
    /// The outcome of `new_array_keeping`: `mid` is the machine after room was made.
    spec fn keeping_outcome(
        &self,
        mid: &Vm,
        elements_type: ArrayEntryType,
        length: usize,
        keep: AbstractObject,
        kept: AbstractObject,
        res: Option<AbstractObject>,
        after: &Vm,
    ) -> bool {
        let size = 24 + 8 * length;
        &&& self.made_room_keeping(mid, size, keep, kept)
        &&& mid.wf()
        &&& mid.heap().is_object(kept)
        &&& mid.heap().object_words(kept).len() == self.heap().object_words(keep).len()
        &&& forall|k: int| 0 <= k < 3 && k < self.heap().object_words(keep).len()
            && hdr_kind(self.heap().object_words(keep)[0]) == 1
            ==> #[trigger] mid.heap().object_words(kept)[k] == self.heap().object_words(keep)[k]
        &&& match res {
            Some(o) => size <= mid.heap().free_bytes() && mid.allocated(after, o, Vm::new_array_words(o, elements_type, length as int)),
            None => size > mid.heap().free_bytes() && *after == *mid,
        }
    }

    /// Whether some machine is the one after room was made, as `keeping_outcome` says.
    spec fn kept_through(
        &self,
        elements_type: ArrayEntryType,
        length: usize,
        keep: AbstractObject,
        kept: AbstractObject,
        res: Option<AbstractObject>,
        after: &Vm,
    ) -> bool {
        exists|mid: Vm| #[trigger] self.keeping_outcome(&mid, elements_type, length, keep, kept, res, after)
    }

    /// As `new_array`, where a collection also keeps the object `keep`; returns the
    /// array, if any, and where `keep` then is.
    fn new_array_keeping(&mut self, elements_type: ArrayEntryType, length: usize, keep: AbstractObject) -> (res: (
        Option<AbstractObject>,
        AbstractObject,
    ))
        requires
            old(self).wf(),
            old(self).heap().is_object(keep),
            24 + 8 * length < 0x1_0000_0000,
        ensures
            final(self).wf(),
            old(self).kept_through(elements_type, length, keep, res.1, res.0, final(self)),
    {
        let ghost v0 = *self;
        let ghost size = 24 + 8 * length;
        proof {
            self.object_allocator.lemma_free_bytes(self.class_manager.table());
        }
        let fits = length <= (usize::MAX - 24) / 8;
        if fits {
            let first = self.object_allocator.allocate_array(&self.class_manager, elements_type, length);
            if let Some(o) = first {
                proof {
                    self.lemma_allocated_wf(v0, o);
                    assert(v0.made_room_keeping(&v0, size, keep, keep));
                    assert(v0.allocated(self, o, Vm::new_array_words(o, elements_type, length as int)));
                    assert(v0.keeping_outcome(&v0, elements_type, length, keep, keep, Some(o), self));
                    assert(v0.kept_through(elements_type, length, keep, keep, Some(o), self));
                }
                return (Some(o), keep);
            }
        }
        let mut extra: Vec<AbstractObject> = vec![keep];
        let ghost extra0 = extra@;
        proof {
            assert(extra0 =~= seq![keep]);
        }
        let collected = self.collect_with(&mut extra);
        let kept = extra[0];
        let ghost mid = *self;
        proof {
            if !v0.nested_arrays_reached(extra0) {
                let f = choose|f: Map<AbstractObject, AbstractObject>| {
                    &&& v0.collected_with(&mid, extra0, f)
                    &&& forall|i: int| 0 <= i < extra0.len() ==> #[trigger] extra@[i] == f[extra0[i]]
                };
                assert(extra@[0] == f[extra0[0]]);
                assert(v0.made_room_keeping(&mid, size, keep, kept));
                let roots = v0.roots() + seq![keep];
                assert(roots[v0.roots().len() as int] == keep);
                v0.object_allocator.lemma_root_reachable(v0.classes(), roots, v0.roots().len() as int);
                assert(f.dom().contains(keep));
                let w0 = v0.heap().object_words(keep);
                assert forall|k: int| 0 <= k < 3 && k < w0.len() && hdr_kind(w0[0]) == 1
                    implies #[trigger] mid.heap().object_words(kept)[k] == w0[k] by {
                    if k > 0 {
                        assert(mid.heap().object_words(kept)[k] == w0[k]);
                    }
                }
            } else {
                assert(v0.made_room_keeping(&mid, size, keep, kept));
            }
            self.object_allocator.lemma_free_bytes(self.class_manager.table());
        }
        if collected.is_err() || !fits {
            proof {
                assert(v0.keeping_outcome(&mid, elements_type, length, keep, kept, None, self));
                assert(v0.kept_through(elements_type, length, keep, kept, None, self));
            }
            return (None, kept);
        }
        let res = self.object_allocator.allocate_array(&self.class_manager, elements_type, length);
        proof {
            if let Some(o) = res {
                self.lemma_allocated_wf(mid, o);
                assert(mid.allocated(self, o, Vm::new_array_words(o, elements_type, length as int)));
            }
            assert(v0.keeping_outcome(&mid, elements_type, length, keep, kept, res, self));
            assert(v0.kept_through(elements_type, length, keep, kept, res, self));
        }
        (res, kept)
    }

    /// A copy of an array: a new array of the same type and length, into which all the
    /// entries are copied. `Ok(None)` when there is no room for it, even after a
    /// collection; fails when the value is not an array.
    pub fn clone_array(&mut self, value: Value) -> (res: Result<Option<Value>, VmError>)
        requires
            old(self).wf(),
            value matches Value::Object(a) ==> old(self).heap().is_object(a),
        ensures
            final(self).wf(),
            match value {
                Value::Object(a) => if hdr_kind(old(self).heap().object_words(a)[0]) == 1 {
                    let w = old(self).heap().object_words(a);
                    let length = w[2] as int;
                    let size = 24 + 8 * length;
                    exists|mid: Vm, kept: AbstractObject| {
                        &&& #[trigger] old(self).made_room_keeping(&mid, size, a, kept)
                        &&& match res {
                            Ok(Some(Value::Object(o))) => size <= mid.heap().free_bytes() && mid.allocated(
                                final(self),
                                o,
                                copied_words(
                                    mid.heap().object_words(kept),
                                    Vm::new_array_words(o, decode_entry_type(w[1]), length),
                                    false,
                                    0,
                                    0,
                                    length as nat,
                                ),
                            ),
                            Ok(None) => size > mid.heap().free_bytes() && *final(self) == mid,
                            _ => false,
                        }
                    }
                } else {
                    res == Err::<Option<Value>, VmError>(VmError::ValidationException) && *final(self) == *old(self)
                },
                _ => res == Err::<Option<Value>, VmError>(VmError::ValidationException) && *final(self) == *old(self),
            },
    {
        let array = match value {
            Value::Object(a) => a,
            _ => return Err(VmError::ValidationException),
        };
        if array.kind(&self.object_allocator, &self.class_manager) != ObjectKind::Array {
            return Err(VmError::ValidationException);
        }
        let ghost v0 = *self;
        let ghost w = v0.heap().object_words(array);
        let elements_type = array.elements_type(&self.object_allocator, &self.class_manager);
        let length = array.len(&self.object_allocator, &self.class_manager) as usize;
        let ghost size = 24 + 8 * length;
        proof {
            law_allocation_header(&v0.heap(), v0.classes(), array);
            lemma_hdr_bounds(w[0]);
        }
        let (new_array, kept) = self.new_array_keeping(elements_type, length, array);
        let ghost mid = choose|mid: Vm| #[trigger] v0.keeping_outcome(&mid, elements_type, length, array, kept, new_array, self);
        let dest = match new_array {
            Some(o) => o,
            None => return Ok(None),
        };
        let ghost alloc = *self;
        proof {
            assert(mid.heap().object_words(kept)[0] == w[0]);
            assert(mid.heap().object_words(kept)[1] == w[1]);
            assert(mid.heap().object_words(kept)[2] == w[2]);
            assert(alloc.heap().object_words(kept) == mid.heap().object_words(kept));
            let ah = dest.address() as u64;
            assert(((ah >> 32u64) ^ ah) & 0x1fff_ffff < 0x2000_0000) by (bit_vector);
            mid.object_allocator.lemma_free_bytes(mid.class_manager.table());
            lemma_make_hdr(1, 0, address_hash(ah), (24 + 8 * length) as u64);
            lemma_entry_type_roundtrip(elements_type);
        }
        let copied = array_copy(&mut self.object_allocator, &self.class_manager, kept, 0, dest, 0, length);
        proof {
            let cw = copied_words(
                mid.heap().object_words(kept),
                Vm::new_array_words(dest, elements_type, length as int),
                false,
                0,
                0,
                length as nat,
            );
            lemma_copied_header(mid.heap().object_words(kept), Vm::new_array_words(dest, elements_type, length as int), false, 0, 0, length as nat);
            assert(copied is Ok);
            assert(self.object_allocator.object_words(dest) == cw);
            assert(mid.heap().keeps_objects(&self.object_allocator)) by {
                assert forall|p: AbstractObject| #[trigger] mid.heap().is_object(p) implies self.object_allocator.is_object(p)
                    && self.object_allocator.object_words(p) == mid.heap().object_words(p) by {
                    assert(alloc.heap().is_object(p));
                    assert(p != dest);
                }
            }
            assert(mid.allocated(self, dest, cw));
            assert forall|k: int| 0 <= k < self.roots().len() implies self.object_allocator.is_object(#[trigger] self.roots()[k]) by {
                assert(self.roots() == alloc.roots());
                assert(alloc.heap().is_object(alloc.roots()[k]));
            }
        }
        Ok(Some(Value::Object(dest)))
    }
}

impl Vm {
    /// Creates the static instance of a loaded class, which holds its static fields,
    /// and registers it, replacing the one it had; `None` when there is no room for it,
    /// even after a collection.
    pub fn init_class(&mut self, class: ClassId) -> (res: Option<AbstractObject>)
        requires
            old(self).wf(),
            has_class(old(self).classes(), class@ as int),
            Vm::size_storable(
                16 + 8 * class_of(old(self).classes(), class@ as int).num_total_fields,
                old(self).heap().region_capacity(),
            ),
        ensures
            final(self).wf(),
            ({
                let n = class_of(old(self).classes(), class@ as int).num_total_fields as int;
                let size = 16 + 8 * n;
                exists|mid: Vm| {
                    &&& #[trigger] old(self).made_room(&mid, size)
                    &&& match res {
                        Some(o) => size <= mid.heap().free_bytes() && mid.initialized(final(self), class, o, Vm::new_object_words(o, class, n)),
                        None => size > mid.heap().free_bytes() && *final(self) == mid,
                    }
                }
            }),
    {
        let ghost v0 = *self;
        let ghost n = class_of(self.classes(), class@ as int).num_total_fields as int;
        let ghost size = 16 + 8 * n;
        let object = self.new_object_of_class(class);
        let ghost mid = choose|mid: Vm| {
            &&& #[trigger] v0.made_room(&mid, size)
            &&& match object {
                Some(o) => size <= mid.heap().free_bytes() && mid.allocated(self, o, Vm::new_object_words(o, class, n)),
                None => size > mid.heap().free_bytes() && *self == mid,
            }
        };
        let o = match object {
            Some(o) => o,
            None => return None,
        };
        let ghost alloc = *self;
        let key = class.as_u32();
        let known = self.statics.contains_key(&key);
        self.statics.insert(key, o);
        if !known {
            self.static_classes.push(key);
        }
        proof {
            let order = self.static_classes@;
            let old_order = alloc.static_classes@;
            if !known {
                assert forall|a: int, b: int| 0 <= a < b < order.len() implies order[a] != order[b] by {
                    if b == order.len() - 1 {
                        assert(old_order.contains(order[a]));
                    }
                }
                assert(order.no_duplicates());
            }
            assert forall|k: u32| #[trigger] self.statics@.contains_key(k) <==> order.contains(k) by {
                if k == key {
                    if !known {
                        assert(order[order.len() - 1] == key);
                    }
                } else {
                    if order.contains(k) {
                        let j = choose|j: int| 0 <= j < order.len() && order[j] == k;
                        assert(old_order[j] == k);
                    }
                    if old_order.contains(k) {
                        let j = choose|j: int| 0 <= j < old_order.len() && old_order[j] == k;
                        assert(order[j] == k);
                    }
                }
            }
            let r = self.roots();
            let r0 = alloc.roots();
            let ns = alloc.static_classes@.len();
            assert forall|k: int| 0 <= k < r.len() implies self.object_allocator.is_object(#[trigger] r[k]) by {
                if k < order.len() {
                    let key2 = order[k];
                    if key2 == key {
                        assert(r[k] == o);
                    } else {
                        assert(k < ns);
                        assert(r[k] == r0[k]);
                        assert(alloc.object_allocator.is_object(r0[k]));
                    }
                } else {
                    let m = k - order.len() + ns;
                    assert(r[k] == r0[m]);
                    assert(alloc.object_allocator.is_object(r0[m]));
                }
            }
            assert(mid.initialized(self, class, o, Vm::new_object_words(o, class, n)));
        }
        Some(o)
    }

    /// The method `<clinit>()V` of a loaded class, which initializes its static fields.
    pub fn clinit_method(&self, class: ClassId) -> (res: Option<ClassAndMethod>)
        requires
            self.wf(),
            has_class(self.classes(), class@ as int),
        ensures
            ({
                let c = class_of(self.classes(), class@ as int);
                match res {
                    Some(cm) => cm.class == class && cm.method < c.methods.len() && c.method_is(cm.method as int, "<clinit>"@, "()V"@)
                        && forall|j: int| 0 <= j < cm.method ==> !c.method_is(j, "<clinit>"@, "()V"@),
                    None => forall|j: int| 0 <= j < c.methods.len() ==> !c.method_is(j, "<clinit>"@, "()V"@),
                }
            }),
    {
        let c = self.class_manager.find_class_by_id(class).unwrap();
        match c.find_method_index("<clinit>", "()V") {
            Some(i) => Some(ClassAndMethod { class, method: i }),
            None => None,
        }
    }

    /// A method of a loaded class, found by its name and descriptor.
    pub fn resolve_class_method(&self, class_name: &str, method_name: &str, method_type_descriptor: &str) -> (res: Result<
        ClassAndMethod,
        MethodCallFailed,
    >)
        requires
            self.wf(),
        ensures
            match res {
                Ok(cm) => exists|i: int| {
                    &&& last_named(self.classes(), class_name@, i)
                    &&& cm.class == self.classes()[i].id
                    &&& cm.method < self.classes()[i].methods.len()
                    &&& self.classes()[i].method_is(cm.method as int, method_name@, method_type_descriptor@)
                    &&& forall|j: int| 0 <= j < cm.method ==> !self.classes()[i].method_is(j, method_name@, method_type_descriptor@)
                },
                Err(MethodCallFailed::InternalError(VmError::ClassNotFoundException(n))) => n@ == class_name@
                    && forall|j: int| 0 <= j < self.classes().len() ==> self.classes()[j].name@ != class_name@,
                Err(MethodCallFailed::InternalError(VmError::MethodNotFoundException(c, m, d))) => {
                    &&& c@ == class_name@ && m@ == method_name@ && d@ == method_type_descriptor@
                    &&& exists|i: int| last_named(self.classes(), class_name@, i)
                        && forall|j: int| 0 <= j < self.classes()[i].methods.len() ==> !self.classes()[i].method_is(j, method_name@, method_type_descriptor@)
                },
                _ => false,
            },
    {
        let class = match self.class_manager.find_class_by_name(class_name) {
            Some(c) => c,
            None => return Err(MethodCallFailed::InternalError(VmError::ClassNotFoundException(class_name.to_owned()))),
        };
        let ghost i = choose|i: int|
            0 <= i < self.classes().len() && self.classes()[i] == *class && class.name@ == class_name@
                && forall|j: int| i < j < self.classes().len() ==> self.classes()[j].name@ != class_name@;
        proof {
            assert(last_named(self.classes(), class_name@, i));
        }
        match class.find_method_index(method_name, method_type_descriptor) {
            Some(i) => Ok(ClassAndMethod { class: class.id, method: i }),
            None => Err(
                MethodCallFailed::InternalError(
                    VmError::MethodNotFoundException(
                        class_name.to_owned(),
                        method_name.to_owned(),
                        method_type_descriptor.to_owned(),
                    ),
                ),
            ),
        }
    }

    /// Allocates an object of the loaded class with the given name, as
    /// `new_object_of_class` does; fails when no class has that name.
    pub fn new_object(&mut self, class_name: &str) -> (res: Result<Option<AbstractObject>, VmError>)
        requires
            old(self).wf(),
            forall|i: int|
                #[trigger] last_named(old(self).classes(), class_name@, i) ==> Vm::size_storable(
                    16 + 8 * old(self).classes()[i].num_total_fields,
                    old(self).heap().region_capacity(),
                ),
        ensures
            final(self).wf(),
            match res {
                Err(VmError::ClassNotFoundException(n)) => n@ == class_name@ && *final(self) == *old(self)
                    && forall|j: int| 0 <= j < old(self).classes().len() ==> old(self).classes()[j].name@ != class_name@,
                Err(_) => false,
                Ok(object) => exists|i: int| #![trigger last_named(old(self).classes(), class_name@, i)] {
                    let id = old(self).classes()[i].id;
                    let n = old(self).classes()[i].num_total_fields as int;
                    let size = 16 + 8 * n;
                    &&& last_named(old(self).classes(), class_name@, i)
                    &&& exists|mid: Vm| {
                        &&& #[trigger] old(self).made_room(&mid, size)
                        &&& match object {
                            Some(o) => size <= mid.heap().free_bytes() && mid.allocated(final(self), o, Vm::new_object_words(o, id, n)),
                            None => size > mid.heap().free_bytes() && *final(self) == mid,
                        }
                    }
                },
            },
    {
        let class = match self.class_manager.find_class_by_name(class_name) {
            Some(c) => c.id,
            None => return Err(VmError::ClassNotFoundException(class_name.to_owned())),
        };
        let ghost i = choose|i: int|
            0 <= i < self.classes().len() && self.classes()[i].id == class && self.classes()[i].name@ == class_name@
                && forall|j: int| i < j < self.classes().len() ==> self.classes()[j].name@ != class_name@;
        proof {
            self.class_manager.lemma_wf();
            assert(class_wf(self.classes(), i));
            assert(class_of(self.classes(), class@ as int) == self.classes()[i]);
            assert(last_named(self.classes(), class_name@, i));
            assert(last_named(self.classes(), class_name@, i));
        }
        let object = self.new_object_of_class(class);
        proof {
            assert(last_named(old(self).classes(), class_name@, i));
        }
        Ok(object)
    }
}

impl Vm {
    /// Appends entries to the class path.
    pub fn append_class_path(&mut self, entries: Vec<Box<dyn ClassPathEntry>>)
        requires
            old(self).wf(),
        ensures
            final(self).wf(),
            final(self).class_path_len() == old(self).class_path_len() + entries@.len(),
            final(self).same_natives(old(self)),
            final(self).classes() == old(self).classes(),
            final(self).heap() == old(self).heap(),
            final(self).statics() == old(self).statics(),
            final(self).static_order() == old(self).static_order(),
            final(self).call_stacks() == old(self).call_stacks(),
            final(self).printed_values() == old(self).printed_values(),
    {
        self.class_path.push(entries);
        proof {
            old(self).lemma_same_roots(*self);
        }
    }

    /// Looks up the bytes of a class file in the entries of the class path, in order.
    pub fn find_class_file(&self, class_name: &str) -> (res: Result<Option<Vec<u8>>, ClassLoadingError>)
        ensures
            self.class_path_len() == 0 ==> res matches Ok(None),
            res matches Ok(Some(_)) ==> self.class_path_len() > 0,
            res is Err ==> self.class_path_len() > 0,
    {
        self.class_path.resolve(class_name)
    }

    /// The class with the given name if it is loaded; else the name of the class file
    /// that its resolution needs first.
    pub fn get_or_resolve_class(&self, class_name: &str) -> (res: ResolutionStep)
        requires
            self.wf(),
        ensures
            match res {
                ResolutionStep::Resolved(r) => exists|i: int|
                    0 <= i < self.classes().len() && self.classes()[i].name@ == class_name@
                        && r == ResolvedClass::AlreadyLoaded(self.classes()[i].id) && forall|j: int|
                        i < j < self.classes().len() ==> self.classes()[j].name@ != class_name@,
                ResolutionStep::NeedClassFile(n) => n@ == class_name@ && forall|j: int|
                    0 <= j < self.classes().len() ==> self.classes()[j].name@ != class_name@,
            },
    {
        self.class_manager.get_or_resolve_class(class_name)
    }

    /// Whether a resolution can go on with a class file within the limits of the machine.
    pub fn can_continue_resolution(&self, resolution: &ClassResolution, class_file: &ClassFile) -> (res: bool)
        requires
            self.wf(),
        ensures
            res == (fields_fit(self.classes(), resolution.fields() + class_file.fields.len())
                && self.classes().len() + resolution.depth() + 1 < u32::MAX
                && referenced_names(*class_file).len() < usize::MAX),
    {
        self.class_manager.can_continue_resolution(resolution, class_file)
    }

    /// Goes on with the resolution of a class, given the class file that it asked for:
    /// loads the classes whose class files are all there, or asks for the next class
    /// file.
    pub fn continue_resolution(&mut self, resolution: &mut ClassResolution, class_file: ClassFile) -> (res: ResolutionStep)
        requires
            old(self).wf(),
            old(resolution).wf(old(self).classes()),
            old(resolution).depth() == 0 || old(resolution).waiting(),
            referenced_names(class_file).len() < usize::MAX,
            fields_fit(old(self).classes(), old(resolution).fields() + class_file.fields.len()),
            old(self).classes().len() + old(resolution).depth() + 1 < u32::MAX,
        ensures
            final(self).wf(),
            final(resolution).wf(final(self).classes()),
            fields_fit(final(self).classes(), final(resolution).fields()),
            final(self).classes().len() + final(resolution).depth() <= old(self).classes().len()
                + old(resolution).depth() + 1,
            old(self).classes().len() <= final(self).classes().len(),
            final(self).classes().subrange(0, old(self).classes().len() as int) == old(self).classes(),
            final(resolution).given() == old(resolution).given().push(class_file),
            new_classes_built(old(self).classes(), final(self).classes(), final(resolution).given()),
            final(self).heap() == old(self).heap(),
            final(self).statics() == old(self).statics(),
            final(self).static_order() == old(self).static_order(),
            final(self).call_stacks() == old(self).call_stacks(),
            final(self).printed_values() == old(self).printed_values(),
            final(self).class_path_len() == old(self).class_path_len(),
            final(self).same_natives(old(self)),
            final(resolution).answers_named() == (old(resolution).answers_named() && (old(resolution).depth() == 0
                || class_file.name@ == old(resolution).waiting_for())),
            final(resolution).answers_named() ==> new_classes_linked(
                old(self).classes(),
                final(self).classes(),
                final(resolution).given(),
            ),
            final(resolution).depth() > 0 ==> final(resolution).start() == if old(resolution).depth() == 0 {
                old(self).classes().len() as int
            } else {
                old(resolution).start()
            },
            match res {
                ResolutionStep::NeedClassFile(n) => final(resolution).waiting() && n@ == final(resolution).waiting_for() && forall|j: int|
                    0 <= j < final(self).classes().len() ==> final(self).classes()[j].name@ != n@,
                ResolutionStep::Resolved(r) => final(resolution).depth() == 0 && r is NewClass
                    && r.class()@ == final(self).classes().len() && final(self).classes().last().name@
                    == (if old(resolution).depth() == 0 {
                    class_file.name@
                } else {
                    old(resolution).bottom_name()
                }) && (refs_distinct(final(resolution).given()) ==> ids_between(
                    r.initialize(),
                    if old(resolution).depth() == 0 {
                        old(self).classes().len() as int
                    } else {
                        old(resolution).start()
                    },
                    final(self).classes().len() as int,
                )),
            },
    {
        let res = self.class_manager.continue_resolution(resolution, class_file);
        proof {
            let t0 = old(self).class_manager.table();
            let t1 = self.class_manager.table();
            old(self).object_allocator.lemma_wf_more_classes(t0, t1);
            assert forall|i: int, j: int|
                0 <= i < self.call_stacks@.len() && 0 <= j < self.call_stacks@[i].frames().len()
                    implies (#[trigger] self.call_stacks@[i].frames()[j]).class_and_method.valid(t1) by {
                let cm = self.call_stacks@[i].frames()[j].class_and_method;
                assert(cm.valid(t0));
                assert(t1[cm.class@ - 1] == t0[cm.class@ - 1]);
            }
            old(self).lemma_same_roots(*self);
        }
        res
    }

    /// A call stack, by its position.
    pub fn call_stack(&self, stack: usize) -> (res: Option<&CallStack>)
        ensures
            stack < self.call_stacks().len() ==> res == Some(&self.call_stacks()[stack as int]),
            stack >= self.call_stacks().len() ==> res is None,
    {
        if stack < self.call_stacks.len() {
            Some(&self.call_stacks[stack])
        } else {
            None
        }
    }

    /// Pushes a frame on a call stack for a call of a method, as `CallStack::add_frame`
    /// does; the receiver and the arguments must be objects of the heap, or not
    /// references.
    pub fn add_frame(
        &mut self,
        stack: usize,
        class_and_method: ClassAndMethod,
        receiver: Option<AbstractObject>,
        args: Vec<Value>,
    ) -> (res: Result<CallFrameReference, VmError>)
        requires
            old(self).wf(),
            stack < old(self).call_stacks().len(),
            class_and_method.valid(old(self).classes()),
            !class_and_method.spec_method(old(self).classes()).spec_is_native()
                ==> class_and_method.spec_method(old(self).classes()).code is Some,
            receiver matches Some(r) ==> old(self).heap().is_object(r),
            forall|i: int| 0 <= i < args@.len() ==> (#[trigger] args@[i] matches Value::Object(o) ==> old(self).heap().is_object(o)),
        ensures
            final(self).wf(),
            final(self).classes() == old(self).classes(),
            final(self).heap() == old(self).heap(),
            final(self).statics() == old(self).statics(),
            final(self).static_order() == old(self).static_order(),
            final(self).printed_values() == old(self).printed_values(),
            final(self).class_path_len() == old(self).class_path_len(),
            final(self).same_natives(old(self)),
            final(self).call_stacks().len() == old(self).call_stacks().len(),
            forall|i: int| 0 <= i < old(self).call_stacks().len() && i != stack ==> #[trigger] final(self).call_stacks()[i] == old(self).call_stacks()[i],
            ({
                let before = old(self).call_stacks()[stack as int].frames();
                let after = final(self).call_stacks()[stack as int].frames();
                let m = class_and_method.spec_method(old(self).classes());
                if m.spec_is_static() && receiver is Some {
                    res == Err::<CallFrameReference, VmError>(VmError::ValidationException) && after == before
                } else if !m.spec_is_static() && receiver is None {
                    res == Err::<CallFrameReference, VmError>(VmError::NullPointerException) && after == before
                } else if m.spec_is_native() {
                    res == Err::<CallFrameReference, VmError>(VmError::NotImplemented) && after == before
                } else {
                    let code = m.code->Some_0;
                    &&& res == Ok::<CallFrameReference, VmError>(CallFrameReference(before.len() as usize))
                    &&& after.len() == before.len() + 1
                    &&& after.drop_last() == before
                    &&& after.last().class_and_method == class_and_method
                    &&& after.last().locals@ == initial_locals(code.max_locals as int, receiver, args@)
                    &&& after.last().stack@ == Seq::<Value>::empty()
                    &&& after.last().stack.max_size() == code.max_stack
                }
            }),
    {
        let ghost v0 = *self;
        let ghost args0 = args@;
        let res = self.call_stacks[stack].add_frame(&self.class_manager, class_and_method, receiver, args);
        proof {
            let fs = self.call_stacks@[stack as int].frames();
            let fs0 = v0.call_stacks@[stack as int].frames();
            assert forall|x: AbstractObject| frames_refs(fs).contains(x) implies self.object_allocator.is_object(x) by {
                lemma_frames_refs_contains(fs, x);
                let j = choose|j: int| 0 <= j < fs.len() && #[trigger] frame_refs(fs[j]).contains(x);
                if j < fs0.len() {
                    assert(fs[j] == fs0[j]);
                    v0.lemma_frame_refs_objects(stack as int, j, x);
                } else {
                    let f = fs[j];
                    let code = class_and_method.spec_method(v0.classes()).code->Some_0;
                    assert(f.stack@ =~= Seq::<Value>::empty());
                    assert(object_refs(f.stack@) =~= Seq::<AbstractObject>::empty());
                    let a = object_refs(f.locals@);
                    let k = choose|k: int| 0 <= k < frame_refs(f).len() && frame_refs(f)[k] == x;
                    assert(a[k] == x);
                    lemma_object_refs_contains(f.locals@, x);
                    lemma_initial_locals_refs(code.max_locals as int, receiver, args0, x);
                    if !(receiver == Some(x)) {
                        let i = choose|i: int| 0 <= i < args0.len() && args0[i] == Value::Object(x);
                        assert(args0[i] matches Value::Object(o) ==> v0.object_allocator.is_object(o));
                    }
                }
            }
            assert forall|j: int| 0 <= j < fs.len() implies (#[trigger] fs[j]).class_and_method.valid(self.class_manager.table()) by {
                if j < fs0.len() {
                    assert(fs[j] == fs0[j]);
                    assert(v0.call_stacks@[stack as int].frames()[j].class_and_method.valid(v0.class_manager.table()));
                }
            }
            v0.lemma_stack_replaced(*self, stack as int);
        }
        res
    }

    /// Pops the last frame of a call stack; fails when there is none.
    pub fn pop_frame(&mut self, stack: usize) -> (res: Result<(), VmError>)
        requires
            old(self).wf(),
            stack < old(self).call_stacks().len(),
        ensures
            final(self).wf(),
            final(self).classes() == old(self).classes(),
            final(self).heap() == old(self).heap(),
            final(self).statics() == old(self).statics(),
            final(self).static_order() == old(self).static_order(),
            final(self).printed_values() == old(self).printed_values(),
            final(self).class_path_len() == old(self).class_path_len(),
            final(self).same_natives(old(self)),
            final(self).call_stacks().len() == old(self).call_stacks().len(),
            forall|i: int| 0 <= i < old(self).call_stacks().len() && i != stack ==> #[trigger] final(self).call_stacks()[i] == old(self).call_stacks()[i],
            ({
                let before = old(self).call_stacks()[stack as int].frames();
                let after = final(self).call_stacks()[stack as int].frames();
                &&& before.len() == 0 ==> res == Err::<(), VmError>(VmError::ValidationException) && after == before
                &&& before.len() > 0 ==> res is Ok && after == before.drop_last()
            }),
    {
        let ghost v0 = *self;
        let res = self.call_stacks[stack].pop_frame();
        proof {
            let fs = self.call_stacks@[stack as int].frames();
            let fs0 = v0.call_stacks@[stack as int].frames();
            assert forall|x: AbstractObject| frames_refs(fs).contains(x) implies self.object_allocator.is_object(x) by {
                lemma_frames_refs_contains(fs, x);
                let j = choose|j: int| 0 <= j < fs.len() && #[trigger] frame_refs(fs[j]).contains(x);
                assert(fs[j] == fs0[j]);
                v0.lemma_frame_refs_objects(stack as int, j, x);
            }
            assert forall|j: int| 0 <= j < fs.len() implies (#[trigger] fs[j]).class_and_method.valid(self.class_manager.table()) by {
                assert(fs[j] == fs0[j]);
                assert(v0.call_stacks@[stack as int].frames()[j].class_and_method.valid(v0.class_manager.table()));
            }
            v0.lemma_stack_replaced(*self, stack as int);
        }
        res
    }

    /// The stack trace of a call stack, the last frame first.
    pub fn get_stack_trace_elements(&self, stack: usize) -> (res: Vec<StackTraceElement<'_>>)
        requires
            self.wf(),
            stack < self.call_stacks().len(),
        ensures
            ({
                let fs = self.call_stacks()[stack as int].frames();
                &&& res@.len() == fs.len()
                &&& forall|i: int|
                    0 <= i < res@.len() ==> {
                        let cm = fs[fs.len() - 1 - i].class_and_method;
                        let class = class_of(self.classes(), cm.class@ as int);
                        &&& (#[trigger] res@[i]).class_name@ == class.name@
                        &&& res@[i].method_name@ == cm.spec_method(self.classes()).name@
                        &&& *res@[i].source_file == class.source_file
                        &&& res@[i].line_number is None
                    }
            }),
    {
        proof {
            assert forall|i: int| 0 <= i < self.call_stacks@[stack as int].frames().len()
                implies #[trigger] self.call_stacks@[stack as int].frames()[i].class_and_method.valid(self.class_manager.table()) by {
            }
        }
        self.call_stacks[stack].get_stack_trace_elements(&self.class_manager)
    }

    /// Changing what the roots do not depend on keeps the machine consistent.
    proof fn lemma_same_roots(&self, after: Vm)
        requires
            self.wf(),
            after.class_manager.wf(),
            after.object_allocator.wf(after.class_manager.table()),
            after.object_allocator == self.object_allocator,
            after.statics == self.statics,
            after.static_classes == self.static_classes,
            after.call_stacks == self.call_stacks,
            forall|i: int, j: int|
                0 <= i < after.call_stacks@.len() && 0 <= j < after.call_stacks@[i].frames().len()
                    ==> (#[trigger] after.call_stacks@[i].frames()[j]).class_and_method.valid(after.class_manager.table()),
        ensures
            after.wf(),
    {
        assert(after.roots() == self.roots());
        assert forall|k: int| 0 <= k < after.roots().len() implies after.object_allocator.is_object(#[trigger] after.roots()[k]) by {
            assert(self.object_allocator.is_object(self.roots()[k]));
        }
    }

    /// An object that a frame of a consistent machine refers to is an object of its heap.
    proof fn lemma_frame_refs_objects(&self, s: int, j: int, x: AbstractObject)
        requires
            self.wf(),
            0 <= s < self.call_stacks@.len(),
            0 <= j < self.call_stacks@[s].frames().len(),
            frame_refs(self.call_stacks@[s].frames()[j]).contains(x),
        ensures
            self.object_allocator.is_object(x),
    {
        let fs = self.call_stacks@[s].frames();
        lemma_frames_refs_contains(fs, x);
        lemma_stacks_refs_contains(self.call_stacks@, x);
        let r = self.roots();
        let sr = stacks_refs(self.call_stacks@);
        let k = choose|k: int| 0 <= k < sr.len() && sr[k] == x;
        assert(r[self.static_roots().len() + k] == x);
    }

    /// Replacing a call stack by one whose frames refer to objects of the heap, and are
    /// of loaded methods, keeps the machine consistent.
    proof fn lemma_stack_replaced(&self, after: Vm, s: int)
        requires
            self.wf(),
            0 <= s < self.call_stacks@.len(),
            after.class_manager == self.class_manager,
            after.object_allocator == self.object_allocator,
            after.statics == self.statics,
            after.static_classes == self.static_classes,
            after.call_stacks@.len() == self.call_stacks@.len(),
            forall|i: int| 0 <= i < self.call_stacks@.len() && i != s ==> after.call_stacks@[i] == self.call_stacks@[i],
            forall|x: AbstractObject| frames_refs(after.call_stacks@[s].frames()).contains(x) ==> self.object_allocator.is_object(x),
            forall|j: int| 0 <= j < after.call_stacks@[s].frames().len()
                ==> (#[trigger] after.call_stacks@[s].frames()[j]).class_and_method.valid(self.class_manager.table()),
        ensures
            after.wf(),
    {
        let r = after.roots();
        let ns = after.static_roots().len();
        assert(after.static_roots() == self.static_roots());
        assert forall|k: int| 0 <= k < r.len() implies after.object_allocator.is_object(#[trigger] r[k]) by {
            if k < ns {
                assert(r[k] == self.roots()[k]);
            } else {
                let x = r[k];
                let sr = stacks_refs(after.call_stacks@);
                assert(sr[k - ns] == x);
                lemma_stacks_refs_contains(after.call_stacks@, x);
                let i = choose|i: int| 0 <= i < after.call_stacks@.len() && #[trigger] frames_refs(after.call_stacks@[i].frames()).contains(x);
                if i != s {
                    lemma_stacks_refs_contains(self.call_stacks@, x);
                    assert(frames_refs(self.call_stacks@[i].frames()).contains(x));
                    let sr0 = stacks_refs(self.call_stacks@);
                    let k0 = choose|k0: int| 0 <= k0 < sr0.len() && sr0[k0] == x;
                    assert(self.roots()[ns + k0] == x);
                }
            }
        }
        assert forall|i: int, j: int|
            0 <= i < after.call_stacks@.len() && 0 <= j < after.call_stacks@[i].frames().len()
                implies (#[trigger] after.call_stacks@[i].frames()[j]).class_and_method.valid(after.class_manager.table()) by {
            if i != s {
                assert(after.call_stacks@[i] == self.call_stacks@[i]);
            }
        }
    }
}

/// The objects that stacks refer to are those that one of the stacks refers to.
#[verifier::spinoff_prover]
proof fn lemma_stacks_refs_contains(ss: Seq<CallStack>, x: AbstractObject)
    ensures
        stacks_refs(ss).contains(x) <==> exists|i: int| 0 <= i < ss.len() && #[trigger] frames_refs(ss[i].frames()).contains(x),
    decreases ss.len(),
{
    if ss.len() > 0 {
        let init = ss.drop_last();
        lemma_stacks_refs_contains(init, x);
        let a = stacks_refs(init);
        let b = frames_refs(ss.last().frames());
        assert(stacks_refs(ss) == a + b);
        assert(stacks_refs(ss).contains(x) ==> exists|i: int| 0 <= i < ss.len() && #[trigger] frames_refs(ss[i].frames()).contains(x)) by {
            if stacks_refs(ss).contains(x) {
                let k = choose|k: int| 0 <= k < (a + b).len() && (a + b)[k] == x;
                if k < a.len() {
                    assert(a[k] == x);
                    assert(a.contains(x));
                    let i = choose|i: int| 0 <= i < init.len() && #[trigger] frames_refs(init[i].frames()).contains(x);
                    assert(ss[i] == init[i]);
                } else {
                    assert(b[k - a.len()] == x);
                    assert(frames_refs(ss[ss.len() - 1].frames()).contains(x));
                }
            }
        }
        assert((exists|i: int| 0 <= i < ss.len() && #[trigger] frames_refs(ss[i].frames()).contains(x)) ==> stacks_refs(ss).contains(x)) by {
            if exists|i: int| 0 <= i < ss.len() && #[trigger] frames_refs(ss[i].frames()).contains(x) {
                let i = choose|i: int| 0 <= i < ss.len() && #[trigger] frames_refs(ss[i].frames()).contains(x);
                if i < ss.len() - 1 {
                    assert(init[i] == ss[i]);
                    assert(frames_refs(init[i].frames()).contains(x));
                    assert(a.contains(x));
                    let k = choose|k: int| 0 <= k < a.len() && a[k] == x;
                    assert((a + b)[k] == x);
                } else {
                    let k = choose|k: int| 0 <= k < b.len() && b[k] == x;
                    assert((a + b)[a.len() + k] == x);
                }
            }
        }
    }
}

/// A reference among the initial local variables is the receiver or an argument.
proof fn lemma_initial_locals_refs(max_locals: int, receiver: Option<AbstractObject>, args: Seq<Value>, x: AbstractObject)
    requires
        initial_locals(max_locals, receiver, args).contains(Value::Object(x)),
    ensures
        receiver == Some(x) || args.contains(Value::Object(x)),
{
    let given = match receiver {
        Some(r) => seq![Value::Object(r)] + args,
        None => args,
    };
    let l = initial_locals(max_locals, receiver, args);
    let j = choose|j: int| 0 <= j < l.len() && l[j] == Value::Object(x);
    if j < given.len() {
        assert(given[j] == Value::Object(x));
        match receiver {
            Some(r) => {
                if j > 0 {
                    assert(args[j - 1] == Value::Object(x));
                }
            },
            None => {
                assert(args[j] == Value::Object(x));
            },
        }
    }
}

impl Vm {
    /// Whether `self` and `other` differ at most in their heaps.
    pub open spec fn same_but_heap(&self, other: &Vm) -> bool {
        &&& self.classes() == other.classes()
        &&& self.statics() == other.statics()
        &&& self.static_order() == other.static_order()
        &&& self.call_stacks() == other.call_stacks()
        &&& self.printed_values() == other.printed_values()
        &&& self.class_path_len() == other.class_path_len()
        &&& self.same_natives(other)
    }

    /// What running a native method does: `after` is `self` after it ran on `stack`,
    /// with the receiver and the arguments given, and `res` is what it returned.
    pub open spec fn native_outcome(
        &self,
        after: &Vm,
        native: NativeMethod,
        stack: int,
        receiver: Option<AbstractObject>,
        args: Seq<Value>,
        res: MethodCallResult,
    ) -> bool {
        let validation = Err::<Option<Value>, MethodCallFailed>(MethodCallFailed::InternalError(VmError::ValidationException));
        let not_implemented = Err::<Option<Value>, MethodCallFailed>(MethodCallFailed::InternalError(VmError::NotImplemented));
        let unchanged = *after == *self;
        match native {
            NativeMethod::TempPrint => if args.len() > 0 {
                &&& res == Ok::<Option<Value>, MethodCallFailed>(None)
                &&& after.printed_values() == self.printed_values().push(args[0])
                &&& after.heap() == self.heap()
                &&& after.classes() == self.classes()
                &&& after.statics() == self.statics()
                &&& after.static_order() == self.static_order()
                &&& after.call_stacks() == self.call_stacks()
                &&& after.class_path_len() == self.class_path_len()
                &&& after.same_natives(self)
            } else {
                res == validation && unchanged
            },
            NativeMethod::Noop => res == Ok::<Option<Value>, MethodCallFailed>(None) && unchanged,
            NativeMethod::NanoTime => unchanged && (res == validation || res matches Ok(Some(Value::Long(_)))),
            NativeMethod::CurrentTimeMillis => unchanged && (res == validation || res matches Ok(Some(Value::Long(_)))),
            NativeMethod::IdentityHashCode => unchanged && if args.len() > 0 && args[0] is Object {
                res == Ok::<Option<Value>, MethodCallFailed>(
                    Some(Value::Int(hdr_hash(self.heap().object_words(args[0]->Object_0)[0]) as i32)),
                )
            } else {
                res == validation
            },
            NativeMethod::Gc => if self.nested_arrays_reached(Seq::empty()) {
                res == not_implemented && unchanged
            } else {
                res == Ok::<Option<Value>, MethodCallFailed>(None) && self.collected(after)
            },
            NativeMethod::ArrayCopy => after.same_but_heap(self) && array_copy_outcome(args, self.heap(), after.heap(), res),
            NativeMethod::FloatToRawIntBits => unchanged && if args.len() > 0 && args[0] is Float {
                res == Ok::<Option<Value>, MethodCallFailed>(Some(Value::Int(args[0]->Float_0 as i32)))
            } else {
                res == validation
            },
            NativeMethod::DoubleToRawLongBits => unchanged && if args.len() > 0 && args[0] is Double {
                res == Ok::<Option<Value>, MethodCallFailed>(Some(Value::Long(args[0]->Double_0 as i64)))
            } else {
                res == validation
            },
            NativeMethod::GetClassLoader => unchanged && res == Ok::<Option<Value>, MethodCallFailed>(Some(Value::Null)),
            NativeMethod::DesiredAssertionStatus => unchanged && res == Ok::<Option<Value>, MethodCallFailed>(Some(Value::Int(1))),
            NativeMethod::GetPrimitiveClass => unchanged && res == not_implemented,
            NativeMethod::FillInStackTrace => match receiver {
                None => res == validation && unchanged,
                Some(r) => {
                    &&& res == Ok::<Option<Value>, MethodCallFailed>(Some(Value::Object(r)))
                    &&& after.throwable_stacks() == self.throwable_stacks().insert(
                        hdr_hash(self.heap().object_words(r)[0]) as i32,
                        stack_methods(self.call_stacks()[stack].frames()),
                    )
                    &&& after.heap() == self.heap()
                    &&& after.classes() == self.classes()
                    &&& after.statics() == self.statics()
                    &&& after.static_order() == self.static_order()
                    &&& after.call_stacks() == self.call_stacks()
                    &&& after.printed_values() == self.printed_values()
                    &&& after.class_path_len() == self.class_path_len()
                    &&& after.natives() == self.natives()
                    &&& after.has_temp_print() == self.has_temp_print()
                },
            },
            NativeMethod::GetStackTraceDepth => unchanged && match receiver {
                None => res == validation,
                Some(r) => {
                    let h = hdr_hash(self.heap().object_words(r)[0]) as i32;
                    if self.throwable_stacks().contains_key(h) {
                        res == Ok::<Option<Value>, MethodCallFailed>(Some(Value::Int(self.throwable_stacks()[h].len() as i32)))
                    } else {
                        res == validation
                    }
                },
            },
            NativeMethod::GetStackTraceElement => unchanged && match receiver {
                None => res == validation,
                Some(r) => {
                    let h = hdr_hash(self.heap().object_words(r)[0]) as i32;
                    if !(args.len() > 0 && args[0] is Int) || !self.throwable_stacks().contains_key(h) {
                        res == validation
                    } else {
                        res == not_implemented
                    }
                },
            },
        }
    }

    /// Runs a native method on a call stack, with the given receiver and arguments.
    /// Creating `java.lang.Class` and `java.lang.StackTraceElement` objects is not
    /// supported: `getPrimitiveClass` and `getStackTraceElement` fail with
    /// `NotImplemented`.
    pub fn run_native(&mut self, native: NativeMethod, stack: usize, receiver: Option<AbstractObject>, args: Vec<Value>) -> (res: MethodCallResult)
        requires
            old(self).wf(),
            stack < old(self).call_stacks().len(),
            receiver matches Some(r) ==> old(self).heap().is_object(r),
            forall|i: int| 0 <= i < args@.len() ==> (#[trigger] args@[i] matches Value::Object(o) ==> old(self).heap().is_object(o)),
        ensures
            final(self).wf(),
            old(self).native_outcome(final(self), native, stack as int, receiver, args@, res),
    {
        let ghost v0 = *self;
        match native {
            NativeMethod::TempPrint => {
                if args.len() == 0 {
                    return Err(MethodCallFailed::InternalError(VmError::ValidationException));
                }
                let arg = args[0];
                self.printed.push(arg);
                proof {
                    v0.lemma_same_roots(*self);
                }
                Ok(None)
            },
            NativeMethod::Noop => Ok(None),
            NativeMethod::NanoTime => match get_nano_time() {
                Some(t) => Ok(Some(Value::Long(t))),
                None => Err(MethodCallFailed::InternalError(VmError::ValidationException)),
            },
            NativeMethod::CurrentTimeMillis => match get_current_time_millis() {
                Some(t) => Ok(Some(Value::Long(t))),
                None => Err(MethodCallFailed::InternalError(VmError::ValidationException)),
            },
            NativeMethod::IdentityHashCode => identity_hash_code(args, &self.object_allocator, &self.class_manager),
            NativeMethod::Gc => match self.run_garbage_collection() {
                Ok(()) => Ok(None),
                Err(e) => Err(MethodCallFailed::InternalError(e)),
            },
            NativeMethod::ArrayCopy => {
                let res = native_array_copy(args, &mut self.object_allocator, &self.class_manager);
                proof {
                    assert forall|k: int| 0 <= k < self.roots().len() implies self.object_allocator.is_object(#[trigger] self.roots()[k]) by {
                        assert(self.roots() == v0.roots());
                        assert(v0.object_allocator.is_object(v0.roots()[k]));
                    }
                }
                res
            },
            NativeMethod::FloatToRawIntBits => float_to_raw_int_bits(args.as_slice()),
            NativeMethod::DoubleToRawLongBits => double_to_raw_long_bits(args.as_slice()),
            NativeMethod::GetClassLoader => get_class_loader(receiver),
            NativeMethod::DesiredAssertionStatus => Ok(Some(Value::Int(1))),
            NativeMethod::GetPrimitiveClass => Err(MethodCallFailed::InternalError(VmError::NotImplemented)),
            NativeMethod::FillInStackTrace => {
                let r = match receiver {
                    Some(r) => r,
                    None => return Err(MethodCallFailed::InternalError(VmError::ValidationException)),
                };
                let methods = self.call_stacks[stack].frame_methods();
                let hash = r.identity_hash_code(&self.object_allocator, &self.class_manager);
                self.throwable_call_stacks.insert(hash, methods);
                proof {
                    assert(self.throwable_stacks() =~= v0.throwable_stacks().insert(hash, methods@));
                    v0.lemma_same_roots(*self);
                }
                Ok(Some(Value::Object(r)))
            },
            NativeMethod::GetStackTraceDepth => {
                let r = match receiver {
                    Some(r) => r,
                    None => return Err(MethodCallFailed::InternalError(VmError::ValidationException)),
                };
                let hash = r.identity_hash_code(&self.object_allocator, &self.class_manager);
                match self.throwable_call_stacks.get(&hash) {
                    Some(methods) => Ok(Some(Value::Int(methods.len() as i32))),
                    None => Err(MethodCallFailed::InternalError(VmError::ValidationException)),
                }
            },
            NativeMethod::GetStackTraceElement => {
                let r = match receiver {
                    Some(r) => r,
                    None => return Err(MethodCallFailed::InternalError(VmError::ValidationException)),
                };
                if let Err(e) = expect_int_at(args.as_slice(), 0) {
                    return Err(MethodCallFailed::InternalError(e));
                }
                let hash = r.identity_hash_code(&self.object_allocator, &self.class_manager);
                match self.throwable_call_stacks.get(&hash) {
                    Some(_) => Err(MethodCallFailed::InternalError(VmError::NotImplemented)),
                    None => Err(MethodCallFailed::InternalError(VmError::ValidationException)),
                }
            },
        }
    }

    /// Invokes a native method: the one registered for the class, the name and the
    /// descriptor of the method; fails with `NotImplemented` when there is none.
    pub fn invoke_native(
        &mut self,
        stack: usize,
        class_and_method: ClassAndMethod,
        receiver: Option<AbstractObject>,
        args: Vec<Value>,
    ) -> (res: MethodCallResult)
        requires
            old(self).wf(),
            stack < old(self).call_stacks().len(),
            class_and_method.valid(old(self).classes()),
            receiver matches Some(r) ==> old(self).heap().is_object(r),
            forall|i: int| 0 <= i < args@.len() ==> (#[trigger] args@[i] matches Value::Object(o) ==> old(self).heap().is_object(o)),
        ensures
            final(self).wf(),
            ({
                let m = class_and_method.spec_method(old(self).classes());
                let class = class_of(old(self).classes(), class_and_method.class@ as int);
                match lookup(old(self).natives(), old(self).has_temp_print(), class.name@, m.name@, m.type_descriptor@) {
                    Some(native) => old(self).native_outcome(final(self), native, stack as int, receiver, args@, res),
                    None => res == Err::<Option<Value>, MethodCallFailed>(MethodCallFailed::InternalError(VmError::NotImplemented))
                        && *final(self) == *old(self),
                }
            }),
    {
        let class = self.class_manager.find_class_by_id(class_and_method.class).unwrap();
        let method = class_and_method.method(&self.class_manager);
        let native = self.native_methods_registry.get_method(class.name.as_str(), method.name.as_str(), method.type_descriptor.as_str());
        match native {
            Some(native) => self.run_native(native, stack, receiver, args),
            None => Err(MethodCallFailed::InternalError(VmError::NotImplemented)),
        }
    }
}

impl Vm {
    /// Stores a value in a field of an object, as `AbstractObject::set_field` does on the
    /// heap of the machine.
    pub fn set_field(&mut self, object: AbstractObject, index: usize, value: Value)
        requires
            old(self).wf(),
            old(self).heap().is_object(object),
            hdr_kind(old(self).heap().object_words(object)[0]) == 0,
            index < class_of(old(self).classes(), old(self).heap().object_words(object)[1] as int).num_total_fields,
            storable(
                &old(self).heap(),
                value,
                all_fields(old(self).classes(), old(self).heap().object_words(object)[1] as int)[index as int].type_descriptor.is_reference(),
            ),
        ensures
            final(self).wf(),
            final(self).same_but_heap(old(self)),
            forall|p: AbstractObject| #[trigger] final(self).heap().is_object(p) == old(self).heap().is_object(p),
            forall|p: AbstractObject|
                #[trigger] old(self).heap().is_object(p) && p != object ==> final(self).heap().object_words(p) == old(self).heap().object_words(p),
            final(self).heap().object_words(object) == old(self).heap().object_words(object).update(
                2 + index,
                write_value_word(old(self).heap().object_words(object)[2 + index], value),
            ),
            final(self).heap().free_bytes() == old(self).heap().free_bytes(),
    {
        let ghost v0 = *self;
        object.set_field(&mut self.object_allocator, &self.class_manager, index, value);
        proof {
            v0.lemma_heap_replaced(*self);
        }
    }

    /// Stores a value in an entry of an array, as `AbstractObject::set_element` does on
    /// the heap of the machine; fails when the index is out of bounds, or when the value
    /// does not match the type of the entries.
    pub fn set_element(&mut self, array: AbstractObject, index: usize, value: Value) -> (res: Result<(), VmError>)
        requires
            old(self).wf(),
            old(self).heap().is_object(array),
            hdr_kind(old(self).heap().object_words(array)[0]) == 1,
            value matches Value::Object(o) ==> old(self).heap().is_object(o),
        ensures
            final(self).wf(),
            final(self).same_but_heap(old(self)),
            forall|p: AbstractObject| #[trigger] final(self).heap().is_object(p) == old(self).heap().is_object(p),
            forall|p: AbstractObject|
                #[trigger] old(self).heap().is_object(p) && p != array ==> final(self).heap().object_words(p) == old(self).heap().object_words(p),
            final(self).heap().free_bytes() == old(self).heap().free_bytes(),
            index >= old(self).heap().object_words(array)[2] ==> res == Err::<(), VmError>(
                VmError::ArrayIndexOutOfBoundsException,
            ) && final(self).heap().object_words(array) == old(self).heap().object_words(array),
            index < old(self).heap().object_words(array)[2] && !entry_accepts(
                old(self).heap(),
                old(self).classes(),
                decode_entry_type(old(self).heap().object_words(array)[1]),
                value,
            ) ==> res == Err::<(), VmError>(VmError::ValidationException) && final(self).heap().object_words(array)
                == old(self).heap().object_words(array),
            index < old(self).heap().object_words(array)[2] && entry_accepts(
                old(self).heap(),
                old(self).classes(),
                decode_entry_type(old(self).heap().object_words(array)[1]),
                value,
            ) ==> res is Ok && final(self).heap().object_words(array)
                == old(self).heap().object_words(array).update(
                3 + index,
                write_value_word(old(self).heap().object_words(array)[3 + index], value),
            ),
    {
        let ghost v0 = *self;
        let res = array.set_element(&mut self.object_allocator, &self.class_manager, index, value);
        proof {
            v0.lemma_heap_replaced(*self);
        }
        res
    }

    /// Changing the heap alone, with the same objects, keeps the machine consistent.
    proof fn lemma_heap_replaced(&self, after: Vm)
        requires
            self.wf(),
            after.object_allocator.wf(after.class_manager.table()),
            after.class_manager == self.class_manager,
            after.statics == self.statics,
            after.static_classes == self.static_classes,
            after.call_stacks == self.call_stacks,
            forall|p: AbstractObject| #[trigger] after.object_allocator.is_object(p) == self.object_allocator.is_object(p),
        ensures
            after.wf(),
    {
        assert(after.roots() == self.roots());
        assert forall|k: int| 0 <= k < after.roots().len() implies after.object_allocator.is_object(#[trigger] after.roots()[k]) by {
            assert(self.object_allocator.is_object(self.roots()[k]));
        }
    }
}

/// A collection keeps the static instances of the initialized classes: each is still an
/// object of the heap, with the same header, hence the same identity hash code.
pub proof fn law_statics_survive_collection(before: Vm, after: Vm)
    requires
        before.wf(),
        before.collected(&after),
    ensures
        forall|k: u32|
            #[trigger] before.statics().contains_key(k) ==> after.heap().is_object(after.statics()[k])
                && after.heap().object_words(after.statics()[k])[0] == before.heap().object_words(before.statics()[k])[0],
{
    let f = choose|f: Map<AbstractObject, AbstractObject>| before.collected_with(&after, Seq::empty(), f);
    let roots = before.roots() + Seq::<AbstractObject>::empty();
    assert forall|k: u32| #[trigger] before.statics().contains_key(k) implies after.heap().is_object(after.statics()[k])
        && after.heap().object_words(after.statics()[k])[0] == before.heap().object_words(before.statics()[k])[0] by {
        assert(before.static_classes@.contains(k));
        let j = choose|j: int| 0 <= j < before.static_classes@.len() && before.static_classes@[j] == k;
        assert(roots[j] == before.statics()[k]);
        assert(before.object_allocator.is_object(before.roots()[j]));
        law_roots_survive_collection(&before.heap(), &after.heap(), before.classes(), roots, f, j);
    }
}

/// After `fillInStackTrace` on a throwable, `getStackTraceDepth` on it gives the number of
/// frames of the call stack at the time of the fill.
pub proof fn law_fill_then_depth(
    v0: Vm,
    v1: Vm,
    v2: Vm,
    stack: int,
    r: AbstractObject,
    args1: Seq<Value>,
    args2: Seq<Value>,
    res1: MethodCallResult,
    res2: MethodCallResult,
)
    requires
        v0.native_outcome(&v1, NativeMethod::FillInStackTrace, stack, Some(r), args1, res1),
        v1.native_outcome(&v2, NativeMethod::GetStackTraceDepth, stack, Some(r), args2, res2),
    ensures
        res2 == Ok::<Option<Value>, MethodCallFailed>(
            Some(Value::Int(v0.call_stacks()[stack].frames().len() as i32)),
        ),
{
    let h = hdr_hash(v0.heap().object_words(r)[0]) as i32;
    assert(v1.throwable_stacks().contains_key(h));
    assert(v1.throwable_stacks()[h] == stack_methods(v0.call_stacks()[stack].frames()));
}

/// After `fillInStackTrace` on a throwable, with the call stack holding `k` frames,
/// `getStackTraceDepth` on any object of the same identity hash code gives `k`, for as
/// long as no other stack trace was associated with that hash code, whatever happened in
/// between.
pub proof fn law_depth_after_fill(
    v0: Vm,
    v1: Vm,
    stack: int,
    r: AbstractObject,
    args1: Seq<Value>,
    res1: MethodCallResult,
    mid: Vm,
    v2: Vm,
    stack2: int,
    r2: AbstractObject,
    args2: Seq<Value>,
    res2: MethodCallResult,
)
    requires
        v0.native_outcome(&v1, NativeMethod::FillInStackTrace, stack, Some(r), args1, res1),
        hdr_hash(mid.heap().object_words(r2)[0]) == hdr_hash(v0.heap().object_words(r)[0]),
        ({
            let h = hdr_hash(v0.heap().object_words(r)[0]) as i32;
            mid.throwable_stacks().contains_key(h) && mid.throwable_stacks()[h] == v1.throwable_stacks()[h]
        }),
        mid.native_outcome(&v2, NativeMethod::GetStackTraceDepth, stack2, Some(r2), args2, res2),
    ensures
        res2 == Ok::<Option<Value>, MethodCallFailed>(
            Some(Value::Int(v0.call_stacks()[stack].frames().len() as i32)),
        ),
{
    let h = hdr_hash(v0.heap().object_words(r)[0]) as i32;
    assert(v1.throwable_stacks()[h] == stack_methods(v0.call_stacks()[stack].frames()));
}

/// Storing in a field or in an entry leaves the header of the allocation as it was: its
/// kind, size and identity hash code do not change.
pub proof fn law_writes_keep_header(words: Seq<u64>, k: int, x: u64)
    requires
        2 <= k < words.len(),
    ensures
        words.update(k, x)[0] == words[0],
        hdr_kind(words.update(k, x)[0]) == hdr_kind(words[0]),
        hdr_hash(words.update(k, x)[0]) == hdr_hash(words[0]),
        hdr_size(words.update(k, x)[0]) == hdr_size(words[0]),
{
}

/// The fields of a new object read as the default values of their types.
pub proof fn law_fresh_object_fields(o: AbstractObject, class: ClassId, num_fields: int, i: int, t: FieldType)
    requires
        0 <= i < num_fields,
    ensures
        read_value_word(Vm::new_object_words(o, class, num_fields)[2 + i], t) == default_value(t),
{
    law_zero_word_reads_default(t);
}

/// The entries of a new array read as the default value of their type.
pub proof fn law_fresh_array_entries(o: AbstractObject, elements_type: ArrayEntryType, length: int, i: int)
    requires
        0 <= i < length,
    ensures
        read_entry_word(Vm::new_array_words(o, elements_type, length)[3 + i], elements_type) == match elements_type {
            ArrayEntryType::Base(b) => default_value(FieldType::Base(b)),
            _ => Value::Null,
        },
{
    match elements_type {
        ArrayEntryType::Base(b) => law_zero_word_reads_default(FieldType::Base(b)),
        _ => {},
    }
}

/// Each entry of the clone of an array reads as the entry of the array it was copied
/// from; the clone has the same type of entries and the same length.
pub proof fn law_clone_reads_like_source(src: Seq<u64>, o: AbstractObject, length: int, k: int)
    requires
        0 <= k < length,
        3 + length <= src.len(),
        entry_type_word_is_reference(src[1]) ==> src[3 + k] <= usize::MAX,
    ensures
        ({
            let et = decode_entry_type(src[1]);
            let c = copied_words(src, Vm::new_array_words(o, et, length), false, 0, 0, length as nat);
            &&& decode_entry_type(c[1]) == et
            &&& c[2] == length as u64
            &&& read_entry_word(c[3 + k], et) == read_entry_word(src[3 + k], et)
        }),
{
    let et = decode_entry_type(src[1]);
    let d0 = Vm::new_array_words(o, et, length);
    lemma_copied_header(src, d0, false, 0, 0, length as nat);
    lemma_copied_entries(src, d0, 0, 0, length as nat, 3 + k);
    lemma_entry_type_roundtrip(et);
    let w = src[3 + k];
    let v = read_entry_word(w, et);
    match et {
        ArrayEntryType::Base(b) => {
            lemma_read_after_write(d0[3 + k], v, false, b);
        },
        _ => {
            if w != 0 {
                AbstractObject::lemma_spec_at(AbstractObject::spec_at(w as usize));
                assert(AbstractObject::spec_at(w as usize).address() == w as usize);
            }
            lemma_read_after_write(d0[3 + k], v, true, BaseType::Int);
        },
    }
}

/// The objects of the first stacks come first, followed by those of the next stack.
proof fn lemma_stacks_refs_prefix(ss: Seq<CallStack>, s: int)
    requires
        0 <= s < ss.len(),
    ensures
        stacks_refs(ss.take(s + 1)) == stacks_refs(ss.take(s)) + frames_refs(ss[s].frames()),
        stacks_refs(ss.take(s + 1)).len() <= stacks_refs(ss).len(),
        forall|k: int|
            0 <= k < stacks_refs(ss.take(s + 1)).len() ==> #[trigger] stacks_refs(ss)[k] == stacks_refs(ss.take(s + 1))[k],
    decreases ss.len() - s,
{
    assert(ss.take(s + 1).drop_last() =~= ss.take(s));
    if s + 1 < ss.len() {
        lemma_stacks_refs_prefix(ss, s + 1);
    } else {
        assert(ss.take(s + 1) =~= ss);
    }
}

/// Moving the references of each stack moves the objects that the stacks refer to.
proof fn lemma_stacks_refs_moved(ss: Seq<CallStack>, ts: Seq<CallStack>, f: Map<AbstractObject, AbstractObject>)
    requires
        ts.len() == ss.len(),
        forall|i: int| 0 <= i < ss.len() ==> stack_moved(#[trigger] ss[i], ts[i], f),
    ensures
        stacks_refs(ts) == moved_refs(stacks_refs(ss), f),
    decreases ss.len(),
{
    if ss.len() > 0 {
        let n = ss.len() - 1;
        assert(stack_moved(ss[n], ts[n], f));
        lemma_stacks_refs_moved(ss.drop_last(), ts.drop_last(), f);
        lemma_frames_refs_moved(ss[n].frames(), ts[n].frames(), f);
        let a = stacks_refs(ss.drop_last());
        let b = frames_refs(ss.last().frames());
        assert(moved_refs(a + b, f) =~= moved_refs(a, f) + moved_refs(b, f));
    } else {
        assert(stacks_refs(ts) =~= moved_refs(stacks_refs(ss), f));
    }
}

} // verus!
