use vstd::prelude::*;

use crate::class::{decimal, u32_to_decimal};

verus! {

/// One element of a stack trace: models `java.lang.StackTraceElement`.
#[derive(Debug, Clone, Copy)]
pub struct StackTraceElement<'a> {
    pub class_name: &'a str,
    pub method_name: &'a str,
    pub source_file: &'a Option<String>,
    pub line_number: Option<u16>,
}

/// How a stack trace element reads: `Class::method`, followed by the source file and
/// the line number in parentheses when they are known.
pub open spec fn stack_trace_text(
    class_name: Seq<char>,
    method_name: Seq<char>,
    source_file: Option<Seq<char>>,
    line_number: Option<u16>,
) -> Seq<char> {
    let head = class_name + seq![':', ':'] + method_name;
    match source_file {
        Some(file_name) => match line_number {
            Some(line) => head + seq![' ', '('] + file_name + seq![':'] + decimal(line as nat)
                + seq![')'],
            None => head + seq![' ', '('] + file_name + seq![')'],
        },
        None => head,
    }
}

impl<'a> StackTraceElement<'a> {
    /// The text of the element.
    pub fn to_string(&self) -> (s: String)
        ensures
            s@ == stack_trace_text(
                self.class_name@,
                self.method_name@,
                match self.source_file {
                    Some(f) => Some(f@),
                    None => None,
                },
                self.line_number,
            ),
    {
        let mut s = String::from_str(self.class_name);
        s.append("::");
        s.append(self.method_name);
        proof {
            reveal_strlit("::");
            reveal_strlit(" (");
            reveal_strlit(":");
            reveal_strlit(")");
        }
        match self.source_file {
            Some(file_name) => {
                s.append(" (");
                s.append(file_name.as_str());
                match self.line_number {
                    Some(line_number) => {
                        s.append(":");
                        let line = u32_to_decimal(line_number as u32);
                        s.append(line.as_str());
                    },
                    None => {},
                }
                s.append(")");
            },
            None => {},
        }
        proof {
            let head = self.class_name@ + seq![':', ':'] + self.method_name@;
            match self.source_file {
                Some(f) => match self.line_number {
                    Some(line) => {
                        assert(s@ =~= head + seq![' ', '('] + f@ + seq![':'] + decimal(line as nat) + seq![')']);
                    },
                    None => {
                        assert(s@ =~= head + seq![' ', '('] + f@ + seq![')']);
                    },
                },
                None => {
                    assert(s@ =~= head);
                },
            }
        }
        s
    }
}

} // verus!
