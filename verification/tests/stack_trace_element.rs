use rjvm_vm::stack_trace_element::StackTraceElement;

#[test]
fn can_format_without_source_file_or_line_number() {
    let element = StackTraceElement {
        class_name: "Object",
        method_name: "<init>",
        source_file: &None,
        line_number: None,
    };
    assert_eq!("Object::<init>", element.to_string());
}

#[test]
fn can_format_with_source_file_but_no_line_number() {
    let element = StackTraceElement {
        class_name: "Object",
        method_name: "<init>",
        source_file: &Some("Object.java".to_string()),
        line_number: None,
    };
    assert_eq!("Object::<init> (Object.java)", element.to_string());
}

#[test]
fn can_format_with_source_file_and_line_number() {
    let element = StackTraceElement {
        class_name: "Object",
        method_name: "<init>",
        source_file: &Some("Object.java".to_string()),
        line_number: Some(42),
    };
    assert_eq!("Object::<init> (Object.java:42)", element.to_string());
}

#[test]
fn line_number_is_written_in_decimal() {
    let element = StackTraceElement {
        class_name: "a/B",
        method_name: "run",
        source_file: &Some("B.java".to_string()),
        line_number: Some(65535),
    };
    assert_eq!("a/B::run (B.java:65535)", element.to_string());
}
