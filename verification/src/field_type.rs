use vstd::prelude::*;

verus! {

/// The primitive types of the java virtual machine.
#[derive(Debug, Clone, Copy, PartialEq, Eq, Structural)]
pub enum BaseType {
    Byte,
    Char,
    Double,
    Float,
    Int,
    Long,
    Short,
    Boolean,
}

impl BaseType {
    /// The position of the type in the enumeration.
    pub open spec fn spec_index(self) -> u8 {
        match self {
            BaseType::Byte => 0,
            BaseType::Char => 1,
            BaseType::Double => 2,
            BaseType::Float => 3,
            BaseType::Int => 4,
            BaseType::Long => 5,
            BaseType::Short => 6,
            BaseType::Boolean => 7,
        }
    }

    pub fn index(&self) -> (res: u8)
        ensures
            res == self.spec_index(),
            res < 8,
    {
        match self {
            BaseType::Byte => 0,
            BaseType::Char => 1,
            BaseType::Double => 2,
            BaseType::Float => 3,
            BaseType::Int => 4,
            BaseType::Long => 5,
            BaseType::Short => 6,
            BaseType::Boolean => 7,
        }
    }

    /// The base type at position `index`.
    pub open spec fn spec_from_index(index: u8) -> BaseType {
        if index == 0 {
            BaseType::Byte
        } else if index == 1 {
            BaseType::Char
        } else if index == 2 {
            BaseType::Double
        } else if index == 3 {
            BaseType::Float
        } else if index == 4 {
            BaseType::Int
        } else if index == 5 {
            BaseType::Long
        } else if index == 6 {
            BaseType::Short
        } else {
            BaseType::Boolean
        }
    }

    pub fn from_index(index: u8) -> (res: BaseType)
        requires
            index < 8,
        ensures
            res == Self::spec_from_index(index),
            res.spec_index() == index,
    {
        if index == 0 {
            BaseType::Byte
        } else if index == 1 {
            BaseType::Char
        } else if index == 2 {
            BaseType::Double
        } else if index == 3 {
            BaseType::Float
        } else if index == 4 {
            BaseType::Int
        } else if index == 5 {
            BaseType::Long
        } else if index == 6 {
            BaseType::Short
        } else {
            BaseType::Boolean
        }
    }

    /// Compares two base types.
    pub fn equals(&self, other: &BaseType) -> (res: bool)
        ensures
            res == (*self == *other),
    {
        self.index() == other.index()
    }
}

/// The type of a field, of a method parameter or of an array component.
#[derive(Debug, PartialEq, Eq)]
pub enum FieldType {
    Base(BaseType),
    /// An instance of the class with this (binary) name
    Object(String),
    /// An array whose components have the given type
    Array(Box<FieldType>),
}

/// Equality of field types, comparing class names by their characters.
pub open spec fn field_type_eq(a: FieldType, b: FieldType) -> bool
    decreases a,
{
    match (a, b) {
        (FieldType::Base(x), FieldType::Base(y)) => x == y,
        (FieldType::Object(x), FieldType::Object(y)) => x@ == y@,
        (FieldType::Array(x), FieldType::Array(y)) => field_type_eq(*x, *y),
        _ => false,
    }
}

impl FieldType {
    /// Whether a value of this type is a reference (an object or an array).
    pub open spec fn is_reference(&self) -> bool {
        !(self is Base)
    }

    pub fn is_reference_type(&self) -> (res: bool)
        ensures
            res == self.is_reference(),
    {
        match self {
            FieldType::Base(_) => false,
            _ => true,
        }
    }

    /// Compares two field types; class names are compared by their characters.
    pub fn same_as(&self, other: &FieldType) -> (res: bool)
        ensures
            res == field_type_eq(*self, *other),
        decreases self,
    {
        match self {
            FieldType::Base(x) => match other {
                FieldType::Base(y) => x.equals(y),
                _ => false,
            },
            FieldType::Object(x) => match other {
                FieldType::Object(y) => *x == *y,
                _ => false,
            },
            FieldType::Array(x) => match other {
                FieldType::Array(y) => (**x).same_as(&**y),
                _ => false,
            },
        }
    }
}

} // verus!
