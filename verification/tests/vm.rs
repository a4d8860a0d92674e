use rjvm_vm::abstract_object::AbstractObject;
use rjvm_vm::array_entry_type::ArrayEntryType;
use rjvm_vm::call_stack::CallFrameReference;
use rjvm_vm::class::{ClassFile, ClassFileField, ClassFileMethod, ClassFileMethodCode, ClassId, MethodDescriptor, ACC_NATIVE, ACC_STATIC};
use rjvm_vm::class_and_method::ClassAndMethod;
use rjvm_vm::class_loading::{ClassResolution, ResolutionStep, ResolvedClass};
use rjvm_vm::exceptions::MethodCallFailed;
use rjvm_vm::field_type::{BaseType, FieldType};
use rjvm_vm::native_methods_registry::NativeMethod;
use rjvm_vm::value::Value;
use rjvm_vm::vm::{Vm, DEFAULT_MAX_MEMORY, DEFAULT_MAX_MEMORY_MB_STR, ONE_MEGABYTE};
use rjvm_vm::vm_error::VmError;

fn method(name: &str, descriptor: &str, flags: u16, parameters: Vec<FieldType>, code: Option<ClassFileMethodCode>) -> ClassFileMethod {
    ClassFileMethod {
        flags,
        name: name.to_string(),
        type_descriptor: descriptor.to_string(),
        parsed_type_descriptor: MethodDescriptor { parameters, return_type: None },
        code,
    }
}

fn code(max_stack: u16, max_locals: u16) -> Option<ClassFileMethodCode> {
    Some(ClassFileMethodCode { max_stack, max_locals })
}

/// A class `Holder` with an `int` field and a reference field, a static initializer, an
/// instance method, a static method and a native method.
fn holder_class_file() -> ClassFile {
    ClassFile {
        name: "Holder".to_string(),
        superclass: None,
        interfaces: Vec::new(),
        source_file: Some("Holder.java".to_string()),
        fields: vec![
            ClassFileField { name: "count".to_string(), type_descriptor: FieldType::Base(BaseType::Int) },
            ClassFileField { name: "other".to_string(), type_descriptor: FieldType::Object("Holder".to_string()) },
        ],
        methods: vec![
            method("<clinit>", "()V", ACC_STATIC, vec![], code(1, 0)),
            method("run", "(I)V", 0, vec![FieldType::Base(BaseType::Int)], code(2, 3)),
            method("main", "([Ljava/lang/String;)V", ACC_STATIC, vec![], code(1, 1)),
            method("tempPrint", "(I)V", ACC_STATIC | ACC_NATIVE, vec![FieldType::Base(BaseType::Int)], None),
            method("unknown", "()V", ACC_STATIC | ACC_NATIVE, vec![], None),
        ],
    }
}

/// A virtual machine with the class `Holder` loaded.
fn vm_with_holder(max_memory: usize) -> (Vm, ClassId) {
    let mut vm = Vm::new(max_memory);
    match vm.get_or_resolve_class("Holder") {
        ResolutionStep::NeedClassFile(name) => assert_eq!("Holder", name),
        _ => panic!("Holder should not be loaded yet"),
    }
    let mut resolution = ClassResolution::new();
    let step = vm.continue_resolution(&mut resolution, holder_class_file());
    let id = match step {
        ResolutionStep::Resolved(ResolvedClass::NewClass(to_init)) => {
            assert_eq!(vec![to_init.resolved_class], to_init.to_initialize);
            to_init.resolved_class
        }
        _ => panic!("Holder should be loaded"),
    };
    (vm, id)
}

fn object_of(value: &Value) -> AbstractObject {
    match value {
        Value::Object(o) => *o,
        _ => panic!("expected an object, got {value:?}"),
    }
}

#[test]
fn default_memory_is_one_hundred_megabytes() {
    assert_eq!(1048576, ONE_MEGABYTE);
    assert_eq!(100 * ONE_MEGABYTE, DEFAULT_MAX_MEMORY);
    assert_eq!("100", DEFAULT_MAX_MEMORY_MB_STR);
}

#[test]
fn a_new_vm_is_empty() {
    let vm = Vm::new(1024);
    assert!(vm.find_class_by_name("Holder").is_none());
    assert_eq!(Err(VmError::ValidationException), vm.get_class_by_id(ClassId::new(1)).map(|c| c.id));
    assert!(vm.printed().is_empty());
    assert_eq!(512, vm.object_allocator().free_memory());
}

#[test]
fn loaded_classes_can_be_found_by_name_and_id() {
    let (vm, id) = vm_with_holder(1024);
    assert_eq!(ClassId::new(1), id);
    assert_eq!(id, vm.find_class_by_name("Holder").unwrap().id);
    assert_eq!("Holder", vm.get_class_by_id(id).unwrap().name);
    match vm.get_or_resolve_class("Holder") {
        ResolutionStep::Resolved(ResolvedClass::AlreadyLoaded(found)) => assert_eq!(id, found),
        _ => panic!("Holder should be loaded"),
    }
}

#[test]
fn class_methods_are_resolved_by_name_and_descriptor() {
    let (vm, id) = vm_with_holder(1024);
    let main = vm.resolve_class_method("Holder", "main", "([Ljava/lang/String;)V").unwrap();
    assert_eq!(ClassAndMethod { class: id, method: 2 }, main);
    assert_eq!(
        Err(MethodCallFailed::InternalError(VmError::MethodNotFoundException(
            "Holder".to_string(),
            "main".to_string(),
            "()V".to_string(),
        ))),
        vm.resolve_class_method("Holder", "main", "()V"),
    );
    assert_eq!(
        Err(MethodCallFailed::InternalError(VmError::ClassNotFoundException("Missing".to_string()))),
        vm.resolve_class_method("Missing", "main", "()V"),
    );
    assert_eq!(Some(ClassAndMethod { class: id, method: 0 }), vm.clinit_method(id));
}

#[test]
fn initializing_a_class_creates_its_static_instance() {
    let (mut vm, id) = vm_with_holder(1024);
    assert_eq!(None, vm.get_static_instance(id));
    let instance = vm.init_class(id).expect("should have room");
    assert_eq!(Some(instance), vm.get_static_instance(id));
    // header, class id and two fields
    assert_eq!(512 - 32, vm.object_allocator().free_memory());
}

#[test]
fn new_objects_need_a_loaded_class() {
    let (mut vm, _) = vm_with_holder(1024);
    assert_eq!(Err(VmError::ClassNotFoundException("Missing".to_string())), vm.new_object("Missing"));
    let object = vm.new_object("Holder").unwrap().expect("should have room");
    assert_eq!(
        Value::Int(0),
        object.get_field(vm.object_allocator(), vm.class_manager(), 0),
    );
    assert_eq!(Value::Null, object.get_field(vm.object_allocator(), vm.class_manager(), 1));
}

#[test]
fn allocation_collects_the_garbage_when_the_heap_is_full() {
    // 256 bytes per region: room for 8 objects of 32 bytes
    let (mut vm, id) = vm_with_holder(512);
    let kept = vm.init_class(id).expect("should have room");
    let hash = kept.identity_hash_code(vm.object_allocator(), vm.class_manager());
    for _ in 0..7 {
        vm.new_object_of_class(id).expect("should have room");
    }
    assert_eq!(0, vm.object_allocator().free_memory());
    // The next allocation collects the garbage: only the static instance survives
    let fresh = vm.new_object_of_class(id).expect("should have room after a collection");
    assert_eq!(256 - 64, vm.object_allocator().free_memory());
    let moved = vm.get_static_instance(id).unwrap();
    assert!(!moved.is_same_as(&fresh));
    assert_eq!(hash, moved.identity_hash_code(vm.object_allocator(), vm.class_manager()));
}

#[test]
fn allocation_fails_when_live_objects_fill_the_heap() {
    let (mut vm, id) = vm_with_holder(64);
    // 32 bytes per region: room for one object, which is kept as static instance
    vm.init_class(id).expect("should have room");
    assert_eq!(None, vm.new_object_of_class(id));
    assert_eq!(None, vm.new_array(ArrayEntryType::Base(BaseType::Int), 0));
}

#[test]
fn garbage_collection_keeps_what_the_roots_reach() {
    let (mut vm, id) = vm_with_holder(1024);
    let root = vm.init_class(id).expect("should have room");
    let child = vm.new_object_of_class(id).expect("should have room");
    let _garbage = vm.new_object_of_class(id).expect("should have room");
    vm.set_field(child, 0, Value::Int(42));
    vm.set_field(root, 1, Value::Object(child));
    assert_eq!(512 - 96, vm.object_allocator().free_memory());
    assert_eq!(Ok(()), vm.run_garbage_collection());
    assert_eq!(512 - 64, vm.object_allocator().free_memory());
    let root = vm.get_static_instance(id).unwrap();
    let child = object_of(&root.get_field(vm.object_allocator(), vm.class_manager(), 1));
    assert_eq!(Value::Int(42), child.get_field(vm.object_allocator(), vm.class_manager(), 0));
}

#[test]
fn arrays_of_arrays_stop_the_collector() {
    let (mut vm, id) = vm_with_holder(1024);
    let nested = vm.new_array(ArrayEntryType::Array, 2).expect("should have room");
    // unreachable, it is collected as any garbage
    assert_eq!(Ok(()), vm.run_garbage_collection());
    assert_eq!(512, vm.object_allocator().free_memory());
    // reachable from a frame, it stops the collector
    let nested_again = vm.new_array(ArrayEntryType::Array, 2).expect("should have room");
    let stack = vm.allocate_call_stack();
    let run = ClassAndMethod { class: id, method: 1 };
    vm.add_frame(stack, run, Some(nested_again), vec![Value::Int(1)]).unwrap();
    assert_eq!(Err(VmError::NotImplemented), vm.run_garbage_collection());
    let _ = nested;
}

#[test]
fn frames_are_added_and_popped() {
    let (mut vm, id) = vm_with_holder(1024);
    let stack = vm.allocate_call_stack();
    assert_eq!(0, stack);
    let receiver = vm.new_object_of_class(id).expect("should have room");
    let run = ClassAndMethod { class: id, method: 1 };
    let main = ClassAndMethod { class: id, method: 2 };
    let unknown = ClassAndMethod { class: id, method: 4 };
    assert_eq!(Err(VmError::ValidationException), vm.add_frame(stack, main, Some(receiver), vec![]));
    assert_eq!(Err(VmError::NullPointerException), vm.add_frame(stack, run, None, vec![Value::Int(1)]));
    assert_eq!(Err(VmError::NotImplemented), vm.add_frame(stack, unknown, None, vec![]));
    assert_eq!(Ok(CallFrameReference(0)), vm.add_frame(stack, main, None, vec![]));
    assert_eq!(Ok(CallFrameReference(1)), vm.add_frame(stack, run, Some(receiver), vec![Value::Int(7)]));
    let call_stack = vm.call_stack(stack).unwrap();
    let frame = call_stack.frame(CallFrameReference(1)).unwrap();
    assert_eq!(vec![Value::Object(receiver), Value::Int(7), Value::Uninitialized], frame.locals);
    let trace = vm.get_stack_trace_elements(stack);
    assert_eq!(2, trace.len());
    assert_eq!("Holder::run (Holder.java)", trace[0].to_string());
    assert_eq!("Holder::main (Holder.java)", trace[1].to_string());
    assert_eq!(Ok(()), vm.pop_frame(stack));
    assert_eq!(Ok(()), vm.pop_frame(stack));
    assert_eq!(Err(VmError::ValidationException), vm.pop_frame(stack));
}

#[test]
fn frames_keep_their_objects_alive() {
    let (mut vm, id) = vm_with_holder(1024);
    let stack = vm.allocate_call_stack();
    let receiver = vm.new_object_of_class(id).expect("should have room");
    let _garbage = vm.new_object_of_class(id).expect("should have room");
    let run = ClassAndMethod { class: id, method: 1 };
    vm.add_frame(stack, run, Some(receiver), vec![Value::Int(7)]).unwrap();
    assert_eq!(Ok(()), vm.run_garbage_collection());
    assert_eq!(512 - 32, vm.object_allocator().free_memory());
    let frame = vm.call_stack(stack).unwrap().frame(CallFrameReference(0)).unwrap();
    let moved = object_of(&frame.locals[0]);
    assert_eq!(id, moved.class_id(vm.object_allocator(), vm.class_manager()));
}

#[test]
fn arrays_can_be_cloned() {
    let (mut vm, id) = vm_with_holder(1024);
    let array = vm.new_array(ArrayEntryType::Base(BaseType::Int), 3).expect("should have room");
    for i in 0..3 {
        vm.set_element(array, i, Value::Int(10 * i as i32 + 1)).unwrap();
    }
    let clone = object_of(&vm.clone_array(Value::Object(array)).unwrap().expect("should have room"));
    assert!(!clone.is_same_as(&array));
    assert_eq!(3, clone.len(vm.object_allocator(), vm.class_manager()));
    for i in 0..3 {
        assert_eq!(
            Ok(Value::Int(10 * i as i32 + 1)),
            clone.get_element(vm.object_allocator(), vm.class_manager(), i),
        );
    }
    assert_eq!(Err(VmError::ValidationException), vm.clone_array(Value::Int(3)));
    let object = vm.new_object_of_class(id).expect("should have room");
    assert_eq!(Err(VmError::ValidationException), vm.clone_array(Value::Object(object)));
}

#[test]
fn cloning_an_array_collects_the_garbage_but_keeps_the_source() {
    // 256 bytes per region
    let (mut vm, id) = vm_with_holder(512);
    let array = vm.new_array(ArrayEntryType::Base(BaseType::Long), 2).expect("should have room");
    vm.set_element(array, 1, Value::Long(-5)).unwrap();
    while vm.object_allocator().free_memory() >= 40 {
        vm.new_object_of_class(id).expect("should have room");
    }
    let clone = object_of(&vm.clone_array(Value::Object(array)).unwrap().expect("should have room"));
    assert_eq!(Ok(Value::Long(-5)), clone.get_element(vm.object_allocator(), vm.class_manager(), 1));
    assert_eq!(Ok(Value::Long(0)), clone.get_element(vm.object_allocator(), vm.class_manager(), 0));
    // only the two arrays are left
    assert_eq!(256 - 80, vm.object_allocator().free_memory());
}

#[test]
fn temp_print_records_its_argument() {
    let (mut vm, id) = vm_with_holder(1024);
    let stack = vm.allocate_call_stack();
    let temp_print = ClassAndMethod { class: id, method: 3 };
    assert_eq!(Ok(None), vm.invoke_native(stack, temp_print, None, vec![Value::Int(3)]));
    assert_eq!(Ok(None), vm.invoke_native(stack, temp_print, None, vec![Value::Int(6)]));
    assert_eq!(&[Value::Int(3), Value::Int(6)], vm.printed());
    assert_eq!(
        Err(MethodCallFailed::InternalError(VmError::ValidationException)),
        vm.invoke_native(stack, temp_print, None, vec![]),
    );
}

#[test]
fn unknown_native_methods_are_not_implemented() {
    let (mut vm, id) = vm_with_holder(1024);
    let stack = vm.allocate_call_stack();
    let unknown = ClassAndMethod { class: id, method: 4 };
    assert_eq!(
        Err(MethodCallFailed::InternalError(VmError::NotImplemented)),
        vm.invoke_native(stack, unknown, None, vec![]),
    );
}

#[test]
fn native_methods_run_on_the_machine() {
    let (mut vm, id) = vm_with_holder(1024);
    let stack = vm.allocate_call_stack();
    let object = vm.new_object_of_class(id).expect("should have room");
    let hash = object.identity_hash_code(vm.object_allocator(), vm.class_manager());
    assert_eq!(Ok(Some(Value::Int(hash))), vm.run_native(NativeMethod::IdentityHashCode, stack, None, vec![Value::Object(object)]));
    assert_eq!(
        Err(MethodCallFailed::InternalError(VmError::ValidationException)),
        vm.run_native(NativeMethod::IdentityHashCode, stack, None, vec![Value::Int(1)]),
    );
    assert_eq!(Ok(Some(Value::Int(0x3f80_0000))), vm.run_native(NativeMethod::FloatToRawIntBits, stack, None, vec![Value::Float(0x3f80_0000)]));
    assert_eq!(
        Ok(Some(Value::Long(0x3ff0_0000_0000_0000))),
        vm.run_native(NativeMethod::DoubleToRawLongBits, stack, None, vec![Value::Double(0x3ff0_0000_0000_0000)]),
    );
    assert_eq!(Ok(Some(Value::Null)), vm.run_native(NativeMethod::GetClassLoader, stack, Some(object), vec![]));
    assert_eq!(Ok(Some(Value::Int(1))), vm.run_native(NativeMethod::DesiredAssertionStatus, stack, None, vec![]));
    assert_eq!(
        Err(MethodCallFailed::InternalError(VmError::NotImplemented)),
        vm.run_native(NativeMethod::GetPrimitiveClass, stack, None, vec![Value::Object(object)]),
    );
    assert_eq!(Ok(None), vm.run_native(NativeMethod::Noop, stack, None, vec![]));
    match vm.run_native(NativeMethod::CurrentTimeMillis, stack, None, vec![]) {
        Ok(Some(Value::Long(millis))) => assert!(millis > 0),
        other => panic!("unexpected result {other:?}"),
    }
    match vm.run_native(NativeMethod::NanoTime, stack, None, vec![]) {
        Ok(Some(Value::Long(nanos))) => assert!(nanos > 0),
        other => panic!("unexpected result {other:?}"),
    }
    assert_eq!(Ok(None), vm.run_native(NativeMethod::Gc, stack, None, vec![]));
    assert_eq!(512, vm.object_allocator().free_memory());
}

#[test]
fn array_copy_is_a_native_method() {
    let (mut vm, _) = vm_with_holder(1024);
    let stack = vm.allocate_call_stack();
    let src = vm.new_array(ArrayEntryType::Base(BaseType::Int), 3).expect("should have room");
    let dest = vm.new_array(ArrayEntryType::Base(BaseType::Int), 3).expect("should have room");
    vm.set_element(src, 2, Value::Int(9)).unwrap();
    let args = vec![Value::Object(src), Value::Int(1), Value::Object(dest), Value::Int(0), Value::Int(2)];
    assert_eq!(Ok(None), vm.run_native(NativeMethod::ArrayCopy, stack, None, args));
    assert_eq!(Ok(Value::Int(9)), dest.get_element(vm.object_allocator(), vm.class_manager(), 1));
    let args = vec![Value::Object(src), Value::Int(2), Value::Object(dest), Value::Int(0), Value::Int(2)];
    assert_eq!(
        Err(MethodCallFailed::InternalError(VmError::ArrayIndexOutOfBoundsException)),
        vm.run_native(NativeMethod::ArrayCopy, stack, None, args),
    );
    // a negative length copies what fits, then fails as out of bounds
    let other = vm.new_array(ArrayEntryType::Base(BaseType::Int), 2).expect("should have room");
    let args = vec![Value::Object(src), Value::Int(1), Value::Object(other), Value::Int(0), Value::Int(-1)];
    assert_eq!(
        Err(MethodCallFailed::InternalError(VmError::ArrayIndexOutOfBoundsException)),
        vm.run_native(NativeMethod::ArrayCopy, stack, None, args),
    );
    assert_eq!(Ok(Value::Int(9)), other.get_element(vm.object_allocator(), vm.class_manager(), 1));
}

#[test]
fn throwables_record_the_stack_trace() {
    let (mut vm, id) = vm_with_holder(1024);
    let stack = vm.allocate_call_stack();
    let throwable = vm.new_object_of_class(id).expect("should have room");
    let main = ClassAndMethod { class: id, method: 2 };
    let run = ClassAndMethod { class: id, method: 1 };
    vm.add_frame(stack, main, None, vec![]).unwrap();
    vm.add_frame(stack, run, Some(throwable), vec![Value::Int(1)]).unwrap();
    assert_eq!(
        Err(MethodCallFailed::InternalError(VmError::ValidationException)),
        vm.run_native(NativeMethod::GetStackTraceDepth, stack, Some(throwable), vec![]),
    );
    assert_eq!(
        Err(MethodCallFailed::InternalError(VmError::ValidationException)),
        vm.run_native(NativeMethod::FillInStackTrace, stack, None, vec![]),
    );
    assert_eq!(
        Ok(Some(Value::Object(throwable))),
        vm.run_native(NativeMethod::FillInStackTrace, stack, Some(throwable), vec![Value::Int(0)]),
    );
    assert_eq!(Ok(Some(Value::Int(2))), vm.run_native(NativeMethod::GetStackTraceDepth, stack, Some(throwable), vec![]));
    assert_eq!(
        Err(MethodCallFailed::InternalError(VmError::NotImplemented)),
        vm.run_native(NativeMethod::GetStackTraceElement, stack, Some(throwable), vec![Value::Int(0)]),
    );
    assert_eq!(
        Err(MethodCallFailed::InternalError(VmError::ValidationException)),
        vm.run_native(NativeMethod::GetStackTraceElement, stack, Some(throwable), vec![]),
    );
}
