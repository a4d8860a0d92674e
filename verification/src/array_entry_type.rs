use vstd::prelude::*;

use crate::class::ClassId;
use crate::class_manager::{class_of, has_class, ClassManager};
use crate::field_type::{BaseType, FieldType};

verus! {

/// The type of the entries of an array, as stored in the array's header.
/// Arrays of arrays do not record the type of their components.
#[derive(Debug, Clone, Copy, PartialEq, Eq, Structural)]
pub enum ArrayEntryType {
    Base(BaseType),
    Object(ClassId),
    Array,
}

/// How an entry type is stored in a heap word: a base type by its index, an array by 8,
/// and an object type by 9 with the class id in the upper half.
pub open spec fn encode_entry_type(e: ArrayEntryType) -> u64 {
    match e {
        ArrayEntryType::Base(b) => b.spec_index() as u64,
        ArrayEntryType::Array => 8,
        ArrayEntryType::Object(c) => ((c@ as u64) << 32u64) | 9,
    }
}

pub open spec fn entry_type_word_valid(w: u64) -> bool {
    w < 9 || w & 0xffff_ffff == 9
}

pub open spec fn decode_entry_type(w: u64) -> ArrayEntryType {
    if w < 8 {
        ArrayEntryType::Base(BaseType::spec_from_index(w as u8))
    } else if w == 8 {
        ArrayEntryType::Array
    } else {
        ArrayEntryType::Object(ClassId::spec_new((w >> 32u64) as u32))
    }
}

/// Whether the entries of an array of this type hold references.
pub open spec fn entry_type_word_is_reference(w: u64) -> bool {
    w >= 8
}

pub proof fn lemma_entry_type_roundtrip(e: ArrayEntryType)
    ensures
        entry_type_word_valid(encode_entry_type(e)),
        decode_entry_type(encode_entry_type(e)) == e,
        entry_type_word_is_reference(encode_entry_type(e)) == !(e is Base),
{
    match e {
        ArrayEntryType::Base(b) => {
            assert(BaseType::spec_from_index(b.spec_index()) == b);
        },
        ArrayEntryType::Array => {},
        ArrayEntryType::Object(c) => {
            let v = c@ as u64;
            let w = (v << 32u64) | 9;
            assert(w & 0xffff_ffff == 9 && w >= 9 && w != 8 && (w >> 32u64) == v) by (bit_vector)
                requires
                    w == (v << 32u64) | 9,
                    v < 0x1_0000_0000,
            ;
            ClassId::lemma_spec_new(c@);
            ClassId::lemma_view_injective(c, ClassId::spec_new(c@));
        },
    }
}

impl ArrayEntryType {
    pub fn encode(&self) -> (w: u64)
        ensures
            w == encode_entry_type(*self),
            entry_type_word_valid(w),
            decode_entry_type(w) == *self,
    {
        proof {
            lemma_entry_type_roundtrip(*self);
        }
        match self {
            ArrayEntryType::Base(b) => b.index() as u64,
            ArrayEntryType::Array => 8,
            ArrayEntryType::Object(c) => ((c.as_u32() as u64) << 32u64) | 9,
        }
    }

    pub fn decode(w: u64) -> (res: ArrayEntryType)
        requires
            entry_type_word_valid(w),
        ensures
            res == decode_entry_type(w),
            encode_entry_type(res) == w,
    {
        if w < 8 {
            let r = ArrayEntryType::Base(BaseType::from_index(w as u8));
            r
        } else if w == 8 {
            ArrayEntryType::Array
        } else {
            let id = (w >> 32u64) as u32;
            let r = ArrayEntryType::Object(ClassId::new(id));
            assert(((id as u64) << 32u64) | 9 == w) by (bit_vector)
                requires
                    id == (w >> 32u64) as u32,
                    w & 0xffff_ffff == 9,
            ;
            r
        }
    }

    /// Compares two entry types.
    pub fn equals(&self, other: &ArrayEntryType) -> (res: bool)
        ensures
            res == (*self == *other),
    {
        proof {
            lemma_entry_type_roundtrip(*self);
            lemma_entry_type_roundtrip(*other);
        }
        self.encode() == other.encode()
    }

    /// The field type of the entries. Arrays of arrays are not supported, since their
    /// header does not record the component type.
    pub fn into_field_type(self, class_resolver: &ClassManager) -> (res: Option<FieldType>)
        requires
            !(self is Array),
        ensures
            match self {
                ArrayEntryType::Base(b) => res == Some(FieldType::Base(b)),
                ArrayEntryType::Object(c) => if has_class(class_resolver.table(), c@ as int) {
                    res matches Some(FieldType::Object(name)) && name@ == class_of(
                        class_resolver.table(),
                        c@ as int,
                    ).name@
                } else {
                    res is None
                },
                ArrayEntryType::Array => false,
            },
    {
        match self {
            ArrayEntryType::Base(base_type) => Some(FieldType::Base(base_type)),
            ArrayEntryType::Object(class_id) => match class_resolver.find_class_by_id(class_id) {
                Some(class) => Some(FieldType::Object(class.name.clone())),
                None => None,
            },
            ArrayEntryType::Array => {
                assert(false);
                None
            },
        }
    }
}

} // verus!
