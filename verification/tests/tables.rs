use rjvm_vm::abstract_object::string_from_char_array;
use rjvm_vm::array_entry_type::ArrayEntryType;
use rjvm_vm::class::{ClassFile, ClassFileField, ClassId};
use rjvm_vm::class_allocator::ClassResolver;
use rjvm_vm::class_loader::ClassLoader;
use rjvm_vm::class_loading::ClassResolution;
use rjvm_vm::class_manager::ClassManager;
use rjvm_vm::class_path::{ClassLoadingError, ClassPath, ClassPathEntry, ClassPathParseError};
use rjvm_vm::class_resolver_by_id::ClassByIdResolver;
use rjvm_vm::field_type::{BaseType, FieldType};
use rjvm_vm::gc::ObjectAllocator;
use rjvm_vm::jar_file_class_path_entry::{class_file_name, JarFileError};
use rjvm_vm::native_methods::register_natives;
use rjvm_vm::native_methods_registry::{NativeMethod, NativeMethodsRegistry};
use rjvm_vm::time::{get_current_time_millis, get_nano_time, millis_to_long, nanos_to_long};
use rjvm_vm::value::Value;
use rjvm_vm::value_stack::ValueStack;
use rjvm_vm::vm::Vm;
use rjvm_vm::vm_error::VmError;

fn char_array(heap: &mut ObjectAllocator, classes: &ClassManager, units: &[u16]) -> rjvm_vm::abstract_object::AbstractObject {
    let array = heap
        .allocate_array(classes, ArrayEntryType::Base(BaseType::Char), units.len())
        .expect("should have room");
    for (i, unit) in units.iter().enumerate() {
        array.set_element(heap, classes, i, Value::Int(*unit as i32)).unwrap();
    }
    array
}

#[test]
fn char_arrays_are_decoded_as_utf16() {
    let classes = ClassManager::new();
    let mut heap = ObjectAllocator::with_maximum_memory(1024);
    let units: Vec<u16> = "andrea".encode_utf16().collect();
    let array = char_array(&mut heap, &classes, &units);
    assert_eq!(Ok("andrea".to_string()), string_from_char_array(array, &heap, &classes));
    let accented: Vec<u16> = "caffè €".encode_utf16().collect();
    let array = char_array(&mut heap, &classes, &accented);
    assert_eq!(Ok("caffè €".to_string()), string_from_char_array(array, &heap, &classes));
    // a character outside the basic plane takes a surrogate pair
    let array = char_array(&mut heap, &classes, &[0x61, 0xd83d, 0xde00]);
    assert_eq!(Ok("a\u{1F600}".to_string()), string_from_char_array(array, &heap, &classes));
}

#[test]
fn invalid_char_arrays_are_rejected() {
    let classes = ClassManager::new();
    let mut heap = ObjectAllocator::with_maximum_memory(1024);
    let ints = heap.allocate_array(&classes, ArrayEntryType::Base(BaseType::Int), 1).unwrap();
    assert_eq!(Err(VmError::ValidationException), string_from_char_array(ints, &heap, &classes));
}

#[test]
fn builtin_native_methods_are_registered() {
    let mut registry = NativeMethodsRegistry::new();
    assert_eq!(None, registry.get_method("java/lang/System", "gc", "()V"));
    register_natives(&mut registry);
    assert_eq!(Some(NativeMethod::Gc), registry.get_method("java/lang/System", "gc", "()V"));
    assert_eq!(Some(NativeMethod::Noop), registry.get_method("java/lang/ClassLoader", "registerNatives", "()V"));
    assert_eq!(
        Some(NativeMethod::ArrayCopy),
        registry.get_method("java/lang/System", "arraycopy", "(Ljava/lang/Object;ILjava/lang/Object;II)V"),
    );
    assert_eq!(
        Some(NativeMethod::GetStackTraceElement),
        registry.get_method("java/lang/Throwable", "getStackTraceElement", "(I)Ljava/lang/StackTraceElement;"),
    );
    assert_eq!(None, registry.get_method("java/lang/System", "gc", "(I)V"));
    assert_eq!(Some(NativeMethod::TempPrint), registry.get_method("rjvm/SimpleMain", "tempPrint", "(I)V"));
}

#[test]
fn a_native_method_registered_again_replaces_the_first() {
    let mut registry = NativeMethodsRegistry::new();
    assert_eq!(None, registry.get_method("A", "tempPrint", "()V"));
    registry.register("A", "f", "()V", NativeMethod::Noop);
    registry.register("A", "g", "()V", NativeMethod::Gc);
    registry.register("A", "f", "()V", NativeMethod::NanoTime);
    assert_eq!(Some(NativeMethod::NanoTime), registry.get_method("A", "f", "()V"));
    assert_eq!(Some(NativeMethod::Gc), registry.get_method("A", "g", "()V"));
    assert_eq!(None, registry.get_method("B", "f", "()V"));
}

#[test]
fn the_clock_is_after_the_epoch() {
    let nanos = get_nano_time().expect("the clock should be after 1970");
    let millis = get_current_time_millis().expect("the clock should be after 1970");
    assert!(nanos > 0);
    assert!(millis > 0);
}

fn class_file(name: &str, superclass: Option<&str>, interfaces: &[&str], fields: &[&str]) -> ClassFile {
    ClassFile {
        name: name.to_string(),
        superclass: superclass.map(|s| s.to_string()),
        interfaces: interfaces.iter().map(|s| s.to_string()).collect(),
        source_file: None,
        fields: fields
            .iter()
            .map(|f| ClassFileField { name: f.to_string(), type_descriptor: FieldType::Base(BaseType::Int) })
            .collect(),
        methods: Vec::new(),
    }
}

/// Loads the class files, each with its superclass and interfaces loaded before it.
fn load(classes: &mut ClassManager, files: Vec<ClassFile>) {
    for file in files {
        let mut resolution = ClassResolution::new();
        classes.continue_resolution(&mut resolution, file);
    }
}

#[test]
fn being_a_subclass_is_transitive() {
    let mut classes = ClassManager::new();
    load(
        &mut classes,
        vec![
            class_file("I", None, &[], &[]),
            class_file("A", None, &["I"], &[]),
            class_file("B", Some("A"), &[], &[]),
            class_file("C", Some("B"), &[], &[]),
        ],
    );
    let id = |name: &str| classes.find_class_by_name(name).unwrap().id;
    assert!(classes.is_subclass_of(id("C"), id("C")));
    assert!(classes.is_subclass_of(id("C"), id("B")));
    assert!(classes.is_subclass_of(id("B"), id("A")));
    assert!(classes.is_subclass_of(id("C"), id("A")));
    assert!(classes.is_subclass_of(id("A"), id("I")));
    assert!(classes.is_subclass_of(id("C"), id("I")));
    assert!(!classes.is_subclass_of(id("A"), id("C")));
}

#[test]
fn found_fields_are_at_their_index() {
    let mut classes = ClassManager::new();
    load(&mut classes, vec![class_file("A", None, &[], &["x", "y"]), class_file("B", Some("A"), &[], &["z", "x"])]);
    let b = classes.find_class_by_name("B").unwrap().id;
    let (index, field) = classes.find_field(b, "x").unwrap();
    assert_eq!(3, index);
    assert_eq!("x", field.name);
    assert_eq!("x", classes.field_at_index(b, index).unwrap().name);
    let (index, field) = classes.find_field(b, "y").unwrap();
    assert_eq!(1, index);
    assert_eq!("y", classes.field_at_index(b, index).unwrap().name);
    assert_eq!("y", field.name);
    assert!(classes.find_field(b, "w").is_none());
}

#[test]
fn classes_can_be_resolved_by_id() {
    let mut classes = ClassManager::new();
    load(&mut classes, vec![class_file("A", None, &[], &[])]);
    let resolver: &dyn ClassByIdResolver = &classes;
    assert_eq!("A", resolver.find_class_by_id(ClassId::new(1)).unwrap().name);
    assert!(resolver.find_class_by_id(ClassId::new(2)).is_none());
    let vm = Vm::new(1024);
    let resolver: &dyn ClassByIdResolver = &vm;
    assert!(resolver.find_class_by_id(ClassId::new(1)).is_none());
}

#[test]
fn class_resolvers_find_loaded_classes_by_id_and_name() {
    let mut classes = ClassManager::new();
    load(&mut classes, vec![class_file("A", None, &[], &[]), class_file("B", Some("A"), &[], &[])]);
    let resolver: &dyn ClassResolver = &classes;
    assert_eq!("B", resolver.find_class_by_id(ClassId::new(2)).unwrap().name);
    assert!(resolver.find_class_by_id(ClassId::new(3)).is_none());
    assert_eq!(ClassId::new(1), resolver.find_class_by_name("A").unwrap().id);
    assert!(resolver.find_class_by_name("C").is_none());
}

#[test]
fn class_loaders_find_the_last_class_registered_under_a_name() {
    let mut classes = ClassManager::new();
    load(&mut classes, vec![class_file("A", None, &[], &[]), class_file("B", None, &[], &[])]);
    let a = classes.find_class_by_name("A").unwrap();
    let b = classes.find_class_by_name("B").unwrap();
    let mut loader = ClassLoader::new();
    assert_eq!(None, loader.find_class_by_name("A"));
    loader.register_class(a);
    loader.register_class(b);
    assert_eq!(Some(a.id), loader.find_class_by_name("A"));
    assert_eq!(Some(b.id), loader.find_class_by_name("B"));
    assert_eq!(None, loader.find_class_by_name("C"));
}

#[test]
fn class_paths_split_at_colons() {
    assert_eq!(vec!["a.jar".to_string(), "dir".to_string()], ClassPath::entry_paths("a.jar:dir"));
    assert_eq!(vec!["".to_string()], ClassPath::entry_paths(""));
    assert_eq!(vec!["x".to_string(), "".to_string(), "y".to_string()], ClassPath::entry_paths("x::y"));
    let pieces = ClassPath::entry_paths("rt.jar:tests/resources:");
    assert_eq!("rt.jar:tests/resources:", pieces.join(":"));
}

#[test]
fn an_empty_class_path_finds_nothing() {
    let class_path = ClassPath::new();
    assert!(matches!(class_path.resolve("java/lang/Object"), Ok(None)));
}

#[test]
fn jar_entries_are_named_after_classes() {
    assert_eq!("rjvm/SimpleMain.class", class_file_name("rjvm/SimpleMain"));
    assert_eq!("file a.jar not found", JarFileError::NotFound("a.jar".to_string()).message());
    assert_eq!("error reading file a.jar", JarFileError::ReadingError("a.jar".to_string()).message());
    assert_eq!("file a.jar is not a valid jar", JarFileError::InvalidJar("a.jar".to_string()).message());
}

#[test]
fn popping_after_a_push_gives_the_value_back() {
    let mut stack = ValueStack::with_max_size(2);
    stack.push(Value::Int(1)).unwrap();
    stack.push(Value::Long(2)).unwrap();
    assert_eq!(Ok(Value::Long(2)), stack.pop());
    assert_eq!(1, stack.len());
    assert_eq!(Ok(Value::Int(1)), stack.pop());
    assert_eq!(0, stack.len());
}

#[test]
fn stack_values_can_be_changed_in_place() {
    let mut stack = ValueStack::with_max_size(2);
    stack.push(Value::Int(1)).unwrap();
    stack.push(Value::Int(2)).unwrap();
    for value in stack.iter_mut() {
        if let Value::Int(i) = value {
            *i *= 10;
        }
    }
    assert_eq!(Ok(Value::Int(20)), stack.pop());
    assert_eq!(Ok(Value::Int(10)), stack.pop());
}

#[test]
fn the_class_path_search_stops_at_the_first_hit_or_error() {
    assert!(ClassPath::resolve_step(Ok(None)).is_none());
    assert!(matches!(ClassPath::resolve_step(Ok(Some(vec![1, 2]))), Some(Ok(Some(b))) if b == vec![1, 2]));
    match ClassPath::resolve_step(Err(ClassLoadingError::new("bad".to_string()))) {
        Some(Err(e)) => assert_eq!("bad", e.message()),
        _ => panic!("expected the error"),
    }
    assert!(matches!(ClassPath::new().resolve("A"), Ok(None)));
}

#[test]
fn clock_counts_keep_their_low_64_bits() {
    assert_eq!(5, nanos_to_long((1u128 << 64) | 5));
    assert_eq!(-1, nanos_to_long(u64::MAX as u128));
    assert_eq!(1_700_000_000_000, millis_to_long(1_700_000_000_000));
    assert_eq!(i64::MIN, millis_to_long(1u128 << 63));
}

struct FixedEntry(Option<Vec<u8>>);

impl ClassPathEntry for FixedEntry {
    fn resolve(&self, _class_name: &str) -> Result<Option<Vec<u8>>, ClassLoadingError> {
        Ok(self.0.clone())
    }
}

#[test]
fn class_path_entries_are_read_all_or_nothing() {
    let mut entries: Vec<Box<dyn ClassPathEntry>> = Vec::new();
    assert!(ClassPath::add_parsed_entry(&mut entries, Ok(Box::new(FixedEntry(None)))).is_ok());
    assert_eq!(1, entries.len());
    let err = ClassPathParseError::InvalidEntry("nowhere".to_string());
    assert_eq!(
        Err(ClassPathParseError::InvalidEntry("nowhere".to_string())),
        ClassPath::add_parsed_entry(&mut entries, Err(err))
    );
    assert_eq!(1, entries.len());
    assert!(ClassPath::add_parsed_entry(&mut entries, Ok(Box::new(FixedEntry(Some(vec![7]))))).is_ok());
    let mut class_path = ClassPath::new();
    class_path.push(entries);
    assert!(matches!(class_path.resolve("A"), Ok(Some(b)) if b == vec![7]));
}
