use vstd::prelude::*;

use crate::field_type::FieldType;

verus! {

/// The progressive number assigned to a class when it is loaded.
#[derive(Debug, Clone, Copy, PartialEq, Eq, Hash, Structural)]
pub struct ClassId(u32);

impl View for ClassId {
    type V = u32;

    closed spec fn view(&self) -> u32 {
        self.0
    }
}

impl ClassId {
    pub fn new(id: u32) -> (res: Self)
        ensures
            res@ == id,
            res == Self::spec_new(id),
    {
        Self(id)
    }

    pub closed spec fn spec_new(id: u32) -> Self {
        Self(id)
    }

    pub proof fn lemma_spec_new(id: u32)
        ensures
            Self::spec_new(id)@ == id,
    {
    }

    pub fn as_u32(&self) -> (res: u32)
        ensures
            res == self@,
    {
        self.0
    }

    /// Class ids are equal exactly when their numbers are.
    pub proof fn lemma_view_injective(a: ClassId, b: ClassId)
        ensures
            (a@ == b@) == (a == b),
    {
    }

    /// The decimal representation of the id.
    pub fn to_string(&self) -> (s: String)
        ensures
            s@ == crate::class::decimal(self@ as nat),
    {
        crate::class::u32_to_decimal(self.0)
    }
}

/// The decimal digits of `n`, most significant first.
pub open spec fn decimal(n: nat) -> Seq<char>
    decreases n,
{
    if n < 10 {
        seq![digit(n)]
    } else {
        decimal(n / 10).push(digit(n % 10))
    }
}

pub open spec fn digit(d: nat) -> char {
    if d == 0 { '0' }
    else if d == 1 { '1' }
    else if d == 2 { '2' }
    else if d == 3 { '3' }
    else if d == 4 { '4' }
    else if d == 5 { '5' }
    else if d == 6 { '6' }
    else if d == 7 { '7' }
    else if d == 8 { '8' }
    else { '9' }
}

/// The value of a decimal digit character.
pub open spec fn digit_value(c: char) -> int {
    c as int - '0' as int
}

/// The number that a sequence of decimal digit characters writes, most significant first.
pub open spec fn decimal_value(s: Seq<char>) -> int
    decreases s.len(),
{
    if s.len() == 0 {
        0
    } else {
        decimal_value(s.drop_last()) * 10 + digit_value(s.last())
    }
}

/// The decimal text of a number reads back as that number; it is made of digits only,
/// and starts with `0` only when it is `0` itself.
pub proof fn law_decimal_reads_back(n: nat)
    ensures
        decimal_value(decimal(n)) == n,
        forall|i: int| 0 <= i < decimal(n).len() ==> '0' <= #[trigger] decimal(n)[i] <= '9',
        decimal(n).len() > 0,
        decimal(n)[0] == '0' ==> n == 0,
    decreases n,
{
    if n < 10 {
        lemma_digit_value(n);
        let s = decimal(n);
        assert(s.drop_last() =~= Seq::<char>::empty());
        assert(decimal_value(s) == decimal_value(s.drop_last()) * 10 + digit_value(s.last()));
    } else {
        law_decimal_reads_back(n / 10);
        lemma_digit_value(n % 10);
        let s = decimal(n);
        assert(s.drop_last() =~= decimal(n / 10));
        assert(s.last() == digit(n % 10));
        assert(s[0] == decimal(n / 10)[0]);
        assert(decimal_value(s) == decimal_value(s.drop_last()) * 10 + digit_value(s.last()));
        assert(decimal_value(s) == (n / 10) * 10 + n % 10);
        assert forall|i: int| 0 <= i < s.len() implies '0' <= #[trigger] s[i] <= '9' by {
            if i < s.len() - 1 {
                assert(s[i] == decimal(n / 10)[i]);
            }
        }
    }
}

/// The character of a digit has that digit's value.
proof fn lemma_digit_value(d: nat)
    requires
        d < 10,
    ensures
        digit_value(digit(d)) == d,
        '0' <= digit(d) <= '9',
        digit(d) == '0' ==> d == 0,
{
}

fn digit_str(d: u32) -> (s: &'static str)
    requires
        d < 10,
    ensures
        s@ == seq![digit(d as nat)],
{
    let s = if d == 0 { "0" }
    else if d == 1 { "1" }
    else if d == 2 { "2" }
    else if d == 3 { "3" }
    else if d == 4 { "4" }
    else if d == 5 { "5" }
    else if d == 6 { "6" }
    else if d == 7 { "7" }
    else if d == 8 { "8" }
    else { "9" };
    proof {
        reveal_strlit("0");
        reveal_strlit("1");
        reveal_strlit("2");
        reveal_strlit("3");
        reveal_strlit("4");
        reveal_strlit("5");
        reveal_strlit("6");
        reveal_strlit("7");
        reveal_strlit("8");
        reveal_strlit("9");
    }
    s
}

/// Writes `n` in decimal.
pub fn u32_to_decimal(n: u32) -> (s: String)
    ensures
        s@ == decimal(n as nat),
        decimal_value(s@) == n,
    decreases n,
{
    proof {
        law_decimal_reads_back(n as nat);
    }
    if n < 10 {
        String::from_str(digit_str(n))
    } else {
        let mut s = u32_to_decimal(n / 10);
        s.append(digit_str(n % 10));
        s
    }
}

/// A field declared in a class file.
#[derive(Debug)]
pub struct ClassFileField {
    pub name: String,
    pub type_descriptor: FieldType,
}

/// The parsed type descriptor of a method.
#[derive(Debug)]
pub struct MethodDescriptor {
    pub parameters: Vec<FieldType>,
    /// `None` for `void` methods
    pub return_type: Option<FieldType>,
}

/// The code attribute of a method; the bytecode itself is not needed here.
#[derive(Debug, Clone, Copy)]
pub struct ClassFileMethodCode {
    pub max_stack: u16,
    pub max_locals: u16,
}

pub const ACC_STATIC: u16 = 0x0008;

pub const ACC_NATIVE: u16 = 0x0100;

/// A method declared in a class file.
#[derive(Debug)]
pub struct ClassFileMethod {
    pub flags: u16,
    pub name: String,
    pub type_descriptor: String,
    pub parsed_type_descriptor: MethodDescriptor,
    pub code: Option<ClassFileMethodCode>,
}

impl ClassFileMethod {
    pub open spec fn spec_is_static(&self) -> bool {
        self.flags & ACC_STATIC != 0
    }

    pub open spec fn spec_is_native(&self) -> bool {
        self.flags & ACC_NATIVE != 0
    }

    pub fn is_static(&self) -> (res: bool)
        ensures
            res == self.spec_is_static(),
    {
        self.flags & ACC_STATIC != 0
    }

    pub fn is_native(&self) -> (res: bool)
        ensures
            res == self.spec_is_native(),
    {
        self.flags & ACC_NATIVE != 0
    }

    pub fn is_void(&self) -> (res: bool)
        ensures
            res == (self.parsed_type_descriptor.return_type is None),
    {
        self.parsed_type_descriptor.return_type.is_none()
    }

    /// Whether the method returns a value of the given type.
    pub fn returns_type(&self, expected_type: &FieldType) -> (res: bool)
        ensures
            res == match self.parsed_type_descriptor.return_type {
                Some(t) => crate::field_type::field_type_eq(t, *expected_type),
                None => false,
            },
    {
        match &self.parsed_type_descriptor.return_type {
            Some(t) => t.same_as(expected_type),
            None => false,
        }
    }
}

/// The content of a class file that the virtual machine needs to create a class.
#[derive(Debug)]
pub struct ClassFile {
    pub name: String,
    pub superclass: Option<String>,
    pub interfaces: Vec<String>,
    pub source_file: Option<String>,
    pub fields: Vec<ClassFileField>,
    pub methods: Vec<ClassFileMethod>,
}

/// A loaded java class. Superclass and interfaces are referred to by id; the class
/// manager resolves them.
#[derive(Debug)]
pub struct Class {
    pub id: ClassId,
    pub name: String,
    /// Source file is stored as an attribute in the .class file, but might be missing
    pub source_file: Option<String>,
    pub superclass: Option<ClassId>,
    pub interfaces: Vec<ClassId>,
    pub fields: Vec<ClassFileField>,
    pub methods: Vec<ClassFileMethod>,
    /// Fields of the base classes come first, with the same index they have in the base
    /// class: this is the index of the first field declared by this class.
    pub first_field_index: usize,
    /// The number of fields, including those of the base classes.
    pub num_total_fields: usize,
}

impl Class {
    /// Whether method `i` of the class has the given name and descriptor.
    pub open spec fn method_is(&self, i: int, method_name: Seq<char>, type_descriptor: Seq<char>) -> bool {
        self.methods@[i].name@ == method_name && self.methods@[i].type_descriptor@ == type_descriptor
    }

    /// The position of the first method declared by this class with the given name and
    /// descriptor.
    pub fn find_method_index(&self, method_name: &str, type_descriptor: &str) -> (res: Option<usize>)
        ensures
            match res {
                Some(i) => i < self.methods.len() && self.method_is(i as int, method_name@, type_descriptor@)
                    && forall|j: int| 0 <= j < i ==> !self.method_is(j, method_name@, type_descriptor@),
                None => forall|j: int|
                    0 <= j < self.methods.len() ==> !self.method_is(j, method_name@, type_descriptor@),
            },
    {
        let name = method_name.to_owned();
        let descriptor = type_descriptor.to_owned();
        let mut i: usize = 0;
        while i < self.methods.len()
            invariant
                i <= self.methods.len(),
                name@ == method_name@,
                descriptor@ == type_descriptor@,
                forall|j: int| 0 <= j < i ==> !self.method_is(j, method_name@, type_descriptor@),
            decreases self.methods.len() - i,
        {
            let m = &self.methods[i];
            if m.name == name && m.type_descriptor == descriptor {
                return Some(i);
            }
            i = i + 1;
        }
        None
    }

    /// Finds the first method declared by this class with the given name and descriptor.
    pub fn find_method(&self, method_name: &str, type_descriptor: &str) -> (res: Option<
        &ClassFileMethod,
    >)
        ensures
            match res {
                Some(m) => exists|i: int|
                    0 <= i < self.methods.len() && self.methods@[i] == *m && self.method_is(
                        i,
                        method_name@,
                        type_descriptor@,
                    ) && forall|j: int| 0 <= j < i ==> !self.method_is(j, method_name@, type_descriptor@),
                None => forall|j: int|
                    0 <= j < self.methods.len() ==> !self.method_is(j, method_name@, type_descriptor@),
            },
    {
        match self.find_method_index(method_name, type_descriptor) {
            Some(i) => Some(&self.methods[i]),
            None => None,
        }
    }
}

} // verus!
