use rjvm_vm::abstract_object::{AbstractObject, ObjectKind};
use rjvm_vm::array_entry_type::ArrayEntryType;
use rjvm_vm::class::{ClassFile, ClassFileField, ClassId};
use rjvm_vm::class_loading::{ClassResolution, ResolutionStep};
use rjvm_vm::class_manager::ClassManager;
use rjvm_vm::field_type::{BaseType, FieldType};
use rjvm_vm::gc::ObjectAllocator;
use rjvm_vm::native_methods::array_copy;
use rjvm_vm::value::Value;
use rjvm_vm::vm_error::VmError;

/// A class `Node` with an `int` field and a reference to another node.
fn node_classes() -> (ClassManager, ClassId) {
    let mut classes = ClassManager::new();
    let mut resolution = ClassResolution::new();
    let step = classes.continue_resolution(
        &mut resolution,
        ClassFile {
            name: "Node".to_string(),
            superclass: None,
            interfaces: Vec::new(),
            source_file: None,
            fields: vec![
                ClassFileField { name: "value".to_string(), type_descriptor: FieldType::Base(BaseType::Int) },
                ClassFileField { name: "next".to_string(), type_descriptor: FieldType::Object("Node".to_string()) },
            ],
            methods: Vec::new(),
        },
    );
    assert!(matches!(step, ResolutionStep::Resolved(_)));
    let id = classes.find_class_by_name("Node").unwrap().id;
    (classes, id)
}

fn new_node(heap: &mut ObjectAllocator, classes: &ClassManager, id: ClassId, value: i32) -> AbstractObject {
    let class = classes.find_class_by_id(id).unwrap();
    let node = heap.allocate(classes, class).expect("should have room");
    node.set_field(heap, classes, 0, Value::Int(value));
    node
}

#[test]
fn objects_are_allocated_with_zeroed_fields() {
    let (classes, id) = node_classes();
    let mut heap = ObjectAllocator::with_maximum_memory(1024);
    let class = classes.find_class_by_id(id).unwrap();
    let node = heap.allocate(&classes, class).expect("should have room");
    assert_eq!(ObjectKind::Object, node.kind(&heap, &classes));
    // header, class id, two fields
    assert_eq!(32, node.alloc_size(&heap, &classes));
    assert_eq!(id, node.class_id(&heap, &classes));
    assert_eq!(Value::Int(0), node.get_field(&heap, &classes, 0));
    assert_eq!(Value::Null, node.get_field(&heap, &classes, 1));
}

#[test]
fn fields_read_back_what_was_written() {
    let (classes, id) = node_classes();
    let mut heap = ObjectAllocator::with_maximum_memory(1024);
    let a = new_node(&mut heap, &classes, id, -7);
    let b = new_node(&mut heap, &classes, id, 3);
    a.set_field(&mut heap, &classes, 1, Value::Object(b));
    assert_eq!(Value::Int(-7), a.get_field(&heap, &classes, 0));
    assert_eq!(Value::Object(b), a.get_field(&heap, &classes, 1));
    assert_eq!(Value::Int(3), b.get_field(&heap, &classes, 0));
    assert!(!a.is_same_as(&b));
    assert!(a.is_same_as(&a));
}

#[test]
fn allocation_fails_when_the_region_is_full() {
    let (classes, id) = node_classes();
    // two semi-spaces of 64 bytes: room for two nodes of 32 bytes
    let mut heap = ObjectAllocator::with_maximum_memory(128);
    let class = classes.find_class_by_id(id).unwrap();
    assert!(heap.allocate(&classes, class).is_some());
    assert!(heap.allocate(&classes, class).is_some());
    assert!(heap.allocate(&classes, class).is_none());
}

#[test]
fn garbage_collection_frees_unreachable_objects() {
    let (classes, id) = node_classes();
    let mut heap = ObjectAllocator::with_maximum_memory(128);
    let class = classes.find_class_by_id(id).unwrap();
    let kept = new_node(&mut heap, &classes, id, 42);
    let _garbage = new_node(&mut heap, &classes, id, 13);
    assert!(heap.allocate(&classes, class).is_none());
    let hash = kept.identity_hash_code(&heap, &classes);
    let mut roots = vec![kept];
    assert_eq!(64, heap.used_memory());
    heap.do_garbage_collection(&mut roots, &classes).expect("gc should succeed");
    // only the kept node's 32 bytes are still in use
    assert_eq!(32, heap.used_memory());
    assert_eq!(32, heap.free_memory());
    let moved = roots[0];
    assert_eq!(Value::Int(42), moved.get_field(&heap, &classes, 0));
    assert_eq!(hash, moved.identity_hash_code(&heap, &classes));
    assert!(heap.allocate(&classes, class).is_some());
    assert!(heap.allocate(&classes, class).is_none());
}

#[test]
fn garbage_collection_keeps_references_between_objects() {
    let (classes, id) = node_classes();
    let mut heap = ObjectAllocator::with_maximum_memory(1024);
    let first = new_node(&mut heap, &classes, id, 1);
    let second = new_node(&mut heap, &classes, id, 2);
    let _garbage = new_node(&mut heap, &classes, id, 3);
    // a cycle: first -> second -> first
    first.set_field(&mut heap, &classes, 1, Value::Object(second));
    second.set_field(&mut heap, &classes, 1, Value::Object(first));
    let second_hash = second.identity_hash_code(&heap, &classes);
    let mut roots = vec![first, first];
    assert_eq!(96, heap.used_memory());
    heap.do_garbage_collection(&mut roots, &classes).expect("gc should succeed");
    // a root listed twice is copied once: two nodes of 32 bytes remain
    assert_eq!(64, heap.used_memory());
    assert!(roots[0].is_same_as(&roots[1]));
    let new_second = match roots[0].get_field(&heap, &classes, 1) {
        Value::Object(o) => o,
        v => panic!("expected an object, got {v:?}"),
    };
    assert_eq!(Value::Int(2), new_second.get_field(&heap, &classes, 0));
    assert_eq!(second_hash, new_second.identity_hash_code(&heap, &classes));
    assert_eq!(Value::Object(roots[0]), new_second.get_field(&heap, &classes, 1));
}

#[test]
fn arrays_of_objects_survive_a_collection() {
    let (classes, id) = node_classes();
    let mut heap = ObjectAllocator::with_maximum_memory(1024);
    let array = heap.allocate_array(&classes, ArrayEntryType::Object(id), 3).expect("should have room");
    let node = new_node(&mut heap, &classes, id, 9);
    array.set_element(&mut heap, &classes, 1, Value::Object(node)).expect("index is valid");
    assert_eq!(Err(VmError::ArrayIndexOutOfBoundsException), array.set_element(&mut heap, &classes, 3, Value::Null));
    let mut roots = vec![array];
    heap.do_garbage_collection(&mut roots, &classes).expect("gc should succeed");
    let array = roots[0];
    assert_eq!(3, array.len(&heap, &classes));
    assert_eq!(Ok(Value::Null), array.get_element(&heap, &classes, 0));
    match array.get_element(&heap, &classes, 1) {
        Ok(Value::Object(o)) => assert_eq!(Value::Int(9), o.get_field(&heap, &classes, 0)),
        v => panic!("expected an object, got {v:?}"),
    }
    assert_eq!(Err(VmError::ArrayIndexOutOfBoundsException), array.get_element(&heap, &classes, 3));
}

#[test]
fn arrays_of_primitives_keep_their_values() {
    let (classes, _) = node_classes();
    let mut heap = ObjectAllocator::with_maximum_memory(1024);
    let array = heap.allocate_array(&classes, ArrayEntryType::Base(BaseType::Long), 2).expect("should have room");
    assert_eq!(ObjectKind::Array, array.kind(&heap, &classes));
    assert_eq!(ArrayEntryType::Base(BaseType::Long), array.elements_type(&heap, &classes));
    array.set_element(&mut heap, &classes, 0, Value::Long(-1)).unwrap();
    assert_eq!(Ok(Value::Long(-1)), array.get_element(&heap, &classes, 0));
    assert_eq!(Ok(Value::Long(0)), array.get_element(&heap, &classes, 1));
    assert!(!array.is_empty(&heap, &classes));
}

#[test]
fn arrays_refuse_values_of_another_type() {
    let (classes, id) = node_classes();
    let mut heap = ObjectAllocator::with_maximum_memory(1024);
    let ints = heap.allocate_array(&classes, ArrayEntryType::Base(BaseType::Int), 1).unwrap();
    ints.set_element(&mut heap, &classes, 0, Value::Int(7)).unwrap();
    assert_eq!(
        Err(VmError::ValidationException),
        ints.set_element(&mut heap, &classes, 0, Value::Float(1.0f32.to_bits()))
    );
    assert_eq!(Err(VmError::ValidationException), ints.set_element(&mut heap, &classes, 0, Value::Null));
    assert_eq!(Ok(Value::Int(7)), ints.get_element(&heap, &classes, 0));
    // the index is checked first
    assert_eq!(
        Err(VmError::ArrayIndexOutOfBoundsException),
        ints.set_element(&mut heap, &classes, 1, Value::Long(3))
    );
    let nodes = heap.allocate_array(&classes, ArrayEntryType::Object(id), 2).unwrap();
    let node = new_node(&mut heap, &classes, id, 4);
    assert_eq!(Err(VmError::ValidationException), nodes.set_element(&mut heap, &classes, 0, Value::Object(ints)));
    assert_eq!(Err(VmError::ValidationException), nodes.set_element(&mut heap, &classes, 0, Value::Int(1)));
    assert_eq!(Ok(()), nodes.set_element(&mut heap, &classes, 0, Value::Object(node)));
    assert_eq!(Ok(()), nodes.set_element(&mut heap, &classes, 1, Value::Null));
    assert_eq!(Ok(Value::Object(node)), nodes.get_element(&heap, &classes, 0));
    assert!(nodes.accepts(&heap, &classes, &Value::Object(node)));
    assert!(!ints.accepts(&heap, &classes, &Value::Double(0)));
}

#[test]
fn array_copy_copies_entries_in_order() {
    let (classes, _) = node_classes();
    let mut heap = ObjectAllocator::with_maximum_memory(1024);
    let src = heap.allocate_array(&classes, ArrayEntryType::Base(BaseType::Int), 4).unwrap();
    let dest = heap.allocate_array(&classes, ArrayEntryType::Base(BaseType::Int), 4).unwrap();
    for i in 0..4 {
        src.set_element(&mut heap, &classes, i, Value::Int(10 + i as i32)).unwrap();
    }
    array_copy(&mut heap, &classes, src, 1, dest, 0, 3).expect("copy should succeed");
    let copied: Vec<Value> = (0..4).map(|i| dest.get_element(&heap, &classes, i).unwrap()).collect();
    assert_eq!(vec![Value::Int(11), Value::Int(12), Value::Int(13), Value::Int(0)], copied);
    // out of bounds: the first entries are still copied
    assert_eq!(
        Err(VmError::ArrayIndexOutOfBoundsException),
        array_copy(&mut heap, &classes, src, 0, dest, 2, 3)
    );
    assert_eq!(Ok(Value::Int(10)), dest.get_element(&heap, &classes, 2));
    assert_eq!(Ok(Value::Int(11)), dest.get_element(&heap, &classes, 3));
}

#[test]
fn array_copy_within_one_array_goes_forward() {
    let (classes, _) = node_classes();
    let mut heap = ObjectAllocator::with_maximum_memory(1024);
    let a = heap.allocate_array(&classes, ArrayEntryType::Base(BaseType::Int), 4).unwrap();
    a.set_element(&mut heap, &classes, 0, Value::Int(5)).unwrap();
    array_copy(&mut heap, &classes, a, 0, a, 1, 3).expect("copy should succeed");
    let all: Vec<Value> = (0..4).map(|i| a.get_element(&heap, &classes, i).unwrap()).collect();
    assert_eq!(vec![Value::Int(5); 4], all);
}

#[test]
fn array_copy_requires_the_same_entry_type() {
    let (classes, _) = node_classes();
    let mut heap = ObjectAllocator::with_maximum_memory(1024);
    let ints = heap.allocate_array(&classes, ArrayEntryType::Base(BaseType::Int), 1).unwrap();
    let longs = heap.allocate_array(&classes, ArrayEntryType::Base(BaseType::Long), 1).unwrap();
    assert_eq!(Err(VmError::ValidationException), array_copy(&mut heap, &classes, ints, 0, longs, 0, 1));
    assert_eq!(Err(VmError::ArrayIndexOutOfBoundsException), array_copy(&mut heap, &classes, ints, -1, ints, 0, 1));
}

#[test]
fn values_match_their_types() {
    let (classes, id) = node_classes();
    let mut heap = ObjectAllocator::with_maximum_memory(1024);
    let node = new_node(&mut heap, &classes, id, 1);
    let ints = heap.allocate_array(&classes, ArrayEntryType::Base(BaseType::Int), 1).unwrap();
    let nodes = heap.allocate_array(&classes, ArrayEntryType::Object(id), 1).unwrap();
    let int_type = FieldType::Base(BaseType::Int);
    assert!(Value::Int(1).matches_type(FieldType::Base(BaseType::Boolean), &heap, &classes));
    assert!(!Value::Int(1).matches_type(FieldType::Base(BaseType::Long), &heap, &classes));
    assert!(Value::Long(1).matches_type(FieldType::Base(BaseType::Long), &heap, &classes));
    assert!(!Value::Uninitialized.matches_type(int_type, &heap, &classes));
    assert!(Value::Null.matches_type(FieldType::Object("Node".to_string()), &heap, &classes));
    assert!(!Value::Null.matches_type(FieldType::Base(BaseType::Int), &heap, &classes));
    assert!(Value::Object(node).matches_type(FieldType::Object("Node".to_string()), &heap, &classes));
    assert!(!Value::Object(node).matches_type(FieldType::Object("Other".to_string()), &heap, &classes));
    assert!(Value::Object(ints).matches_type(
        FieldType::Array(Box::new(FieldType::Base(BaseType::Int))),
        &heap,
        &classes
    ));
    assert!(!Value::Object(ints).matches_type(
        FieldType::Array(Box::new(FieldType::Base(BaseType::Long))),
        &heap,
        &classes
    ));
    assert!(Value::Object(nodes).matches_type(
        FieldType::Array(Box::new(FieldType::Object("Node".to_string()))),
        &heap,
        &classes
    ));
}

#[test]
fn only_reachable_arrays_of_arrays_stop_a_collection() {
    let (classes, id) = node_classes();
    let mut heap = ObjectAllocator::with_maximum_memory(1024);
    let nested = heap.allocate_array(&classes, ArrayEntryType::Array, 2).unwrap();
    let node = new_node(&mut heap, &classes, id, 5);
    assert!(heap.reaches_nested_arrays(&vec![nested], &classes));
    assert!(!heap.reaches_nested_arrays(&vec![node], &classes));
    assert!(!heap.reaches_nested_arrays(&Vec::new(), &classes));
    // reached through a field
    let holder = new_node(&mut heap, &classes, id, 6);
    let objects = heap.allocate_array(&classes, ArrayEntryType::Object(id), 1).unwrap();
    objects.set_element(&mut heap, &classes, 0, Value::Object(holder)).unwrap();
    assert!(!heap.reaches_nested_arrays(&vec![objects], &classes));
    let mut roots = vec![node];
    heap.do_garbage_collection(&mut roots, &classes).expect("the array of arrays is garbage");
    assert_eq!(Value::Int(5), roots[0].get_field(&heap, &classes, 0));
}
