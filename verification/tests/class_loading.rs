use rjvm_vm::class::{ClassFile, ClassFileField, ClassId};
use rjvm_vm::class_loading::{ClassResolution, ResolutionStep, ResolvedClass};
use rjvm_vm::class_manager::ClassManager;
use rjvm_vm::field_type::{BaseType, FieldType};

fn class_file(name: &str, superclass: Option<&str>, interfaces: &[&str], fields: Vec<ClassFileField>) -> ClassFile {
    ClassFile {
        name: name.to_string(),
        superclass: superclass.map(|s| s.to_string()),
        interfaces: interfaces.iter().map(|s| s.to_string()).collect(),
        source_file: Some(format!("{name}.java")),
        fields,
        methods: Vec::new(),
    }
}

fn int_field(name: &str) -> ClassFileField {
    ClassFileField { name: name.to_string(), type_descriptor: FieldType::Base(BaseType::Int) }
}

fn need(step: &ResolutionStep) -> String {
    match step {
        ResolutionStep::NeedClassFile(n) => n.clone(),
        ResolutionStep::Resolved(r) => panic!("unexpected resolution {r:?}"),
    }
}

#[test]
fn loading_a_class_asks_for_its_superclass_first() {
    let mut classes = ClassManager::new();
    let mut resolution = ClassResolution::new();
    let step = classes.get_or_resolve_class("Derived");
    assert_eq!("Derived", need(&step));
    let step = classes.continue_resolution(
        &mut resolution,
        class_file("Derived", Some("Base"), &[], vec![int_field("d")]),
    );
    assert_eq!("Base", need(&step));
    let step = classes.continue_resolution(&mut resolution, class_file("Base", None, &[], vec![int_field("b")]));
    match step {
        ResolutionStep::Resolved(ResolvedClass::NewClass(to_init)) => {
            assert_eq!(ClassId::new(2), to_init.resolved_class);
            assert_eq!(vec![ClassId::new(1), ClassId::new(2)], to_init.to_initialize);
        }
        _ => panic!("derived class should have been loaded"),
    }
    let base = classes.find_class_by_name("Base").expect("base should be loaded");
    assert_eq!(ClassId::new(1), base.id);
    let derived = classes.find_class_by_name("Derived").expect("derived should be loaded");
    assert_eq!(Some(ClassId::new(1)), derived.superclass);
    assert_eq!(1, derived.first_field_index);
    assert_eq!(2, derived.num_total_fields);
    assert_eq!(Some("Derived.java".to_string()), derived.source_file);
}

#[test]
fn already_loaded_classes_are_not_loaded_again() {
    let mut classes = ClassManager::new();
    let mut resolution = ClassResolution::new();
    let step = classes.continue_resolution(&mut resolution, class_file("java/lang/Object", None, &[], vec![]));
    assert!(matches!(step, ResolutionStep::Resolved(ResolvedClass::NewClass(_))));
    match classes.get_or_resolve_class("java/lang/Object") {
        ResolutionStep::Resolved(ResolvedClass::AlreadyLoaded(id)) => assert_eq!(ClassId::new(1), id),
        _ => panic!("class should be loaded"),
    }
    let mut resolution = ClassResolution::new();
    let step = classes.continue_resolution(
        &mut resolution,
        class_file("A", Some("java/lang/Object"), &["java/lang/Object"], vec![]),
    );
    match step {
        ResolutionStep::Resolved(resolved) => {
            assert_eq!(ClassId::new(2), resolved.get_class());
            match resolved {
                ResolvedClass::NewClass(to_init) => assert_eq!(vec![ClassId::new(2)], to_init.to_initialize),
                _ => panic!("A should be new"),
            }
        }
        _ => panic!("A should be loaded"),
    }
    let a = classes.find_class_by_name("A").expect("A should be loaded");
    assert_eq!(vec![ClassId::new(1)], a.interfaces);
}

#[test]
fn subclasses_and_interfaces() {
    let mut classes = ClassManager::new();
    let mut resolution = ClassResolution::new();
    let step = classes.continue_resolution(&mut resolution, class_file("C", Some("B"), &["I"], vec![]));
    assert_eq!("B", need(&step));
    let step = classes.continue_resolution(&mut resolution, class_file("B", Some("A"), &[], vec![]));
    assert_eq!("A", need(&step));
    let step = classes.continue_resolution(&mut resolution, class_file("A", None, &[], vec![]));
    assert_eq!("I", need(&step));
    let step = classes.continue_resolution(&mut resolution, class_file("I", None, &[], vec![]));
    match step {
        ResolutionStep::Resolved(ResolvedClass::NewClass(to_init)) => {
            // A, then B, then I, then C
            assert_eq!(
                vec![ClassId::new(1), ClassId::new(2), ClassId::new(3), ClassId::new(4)],
                to_init.to_initialize
            );
        }
        _ => panic!("C should be loaded"),
    }
    let c = classes.find_class_by_name("C").unwrap().id;
    let a = classes.find_class_by_name("A").unwrap().id;
    let i = classes.find_class_by_name("I").unwrap().id;
    assert!(classes.is_subclass_of(c, a));
    assert!(classes.is_subclass_of(c, i));
    assert!(classes.is_subclass_of(c, c));
    assert!(!classes.is_subclass_of(a, c));
}

#[test]
fn fields_are_found_by_name_and_index() {
    let mut classes = ClassManager::new();
    let mut resolution = ClassResolution::new();
    classes.continue_resolution(
        &mut resolution,
        class_file("B", Some("A"), &[], vec![int_field("y"), int_field("x")]),
    );
    classes.continue_resolution(&mut resolution, class_file("A", None, &[], vec![int_field("x")]));
    let b = classes.find_class_by_name("B").unwrap().id;
    let (index, field) = classes.find_field(b, "x").expect("x should be found");
    assert_eq!(2, index);
    assert_eq!("x", field.name);
    assert_eq!(1, classes.find_field(b, "y").unwrap().0);
    assert!(classes.find_field(b, "z").is_none());
    assert_eq!("x", classes.field_at_index(b, 0).unwrap().name);
    assert_eq!("y", classes.field_at_index(b, 1).unwrap().name);
    assert!(classes.field_at_index(b, 3).is_none());
    let names: Vec<&str> = classes.all_fields(b).iter().map(|f| f.name.as_str()).collect();
    assert_eq!(vec!["x", "y", "x"], names);
}

#[test]
fn room_for_loading_is_checked() {
    let classes = ClassManager::new();
    let resolution = ClassResolution::new();
    assert!(classes.can_continue_resolution(&resolution, &class_file("A", None, &[], vec![int_field("a")])));
}

#[test]
fn class_ids_are_written_in_decimal() {
    assert_eq!("0", ClassId::new(0).to_string());
    assert_eq!("4294967295", ClassId::new(u32::MAX).to_string());
    assert_eq!(17, ClassId::new(17).as_u32());
}
