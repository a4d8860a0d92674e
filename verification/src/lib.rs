//! A small Java virtual machine core: values and the operand stack, a word-addressed
//! object heap with a copying garbage collector, and the class hierarchy queries.

pub mod abstract_object;
pub mod alloc_entry;
pub mod heap_layout;
pub mod array_entry_type;
pub mod call_stack;
pub mod class;
pub mod class_allocator;
pub mod class_and_method;
pub mod class_loader;
pub mod class_manager;
pub mod class_path;
pub mod class_resolver_by_id;
pub mod class_loading;
pub mod exceptions;
pub mod field_type;
pub mod gc;
pub mod jar_file_class_path_entry;
pub mod native_methods;
pub mod native_methods_registry;
pub mod stack_trace_element;
pub mod time;
pub mod value;
pub mod value_stack;
pub mod vm;
pub mod vm_error;
