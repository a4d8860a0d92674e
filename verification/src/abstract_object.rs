use vstd::prelude::*;

use crate::array_entry_type::{decode_entry_type, ArrayEntryType};
use crate::class_manager::ClassManager;
use crate::field_type::BaseType;
use crate::gc::ObjectAllocator;
use crate::value::{read_entry_word, Value};
use crate::vm_error::VmError;

verus! {

/// A reference to an object or an array allocated on the heap: the address of its
/// allocation header. Address 0 is never used, since a zero word encodes `null`.
#[derive(Debug, Clone, Copy, PartialEq, Eq, Structural)]
pub struct AbstractObject {
    data: usize,
}

impl AbstractObject {
    /// The address of the object's allocation header.
    pub closed spec fn address(self) -> usize {
        self.data
    }

    pub(crate) fn at(address: usize) -> (res: Self)
        ensures
            res.address() == address,
            res == Self::spec_at(address),
    {
        AbstractObject { data: address }
    }

    /// The reference to the object at `address`.
    pub closed spec fn spec_at(address: usize) -> Self {
        AbstractObject { data: address }
    }

    pub proof fn lemma_spec_at(o: AbstractObject)
        ensures
            Self::spec_at(o.address()) == o,
            forall|a: usize| #[trigger] Self::spec_at(a).address() == a,
    {
    }

    pub(crate) fn addr(&self) -> (res: usize)
        ensures
            res == self.address(),
    {
        self.data
    }

    /// Two references are equal exactly when their addresses are.
    pub proof fn lemma_address_injective(a: AbstractObject, b: AbstractObject)
        ensures
            (a.address() == b.address()) == (a == b),
    {
    }

    /// Two references are the same object when they point at the same address.
    pub fn is_same_as(&self, other: &AbstractObject) -> (res: bool)
        ensures
            res == (*self == *other),
    {
        self.data == other.data
    }
}

/// Whether an allocation holds an object or an array.
#[derive(Debug, Clone, Copy, PartialEq, Eq, Structural)]
pub enum ObjectKind {
    Object,
    Array,
}

impl ObjectKind {
    pub open spec fn spec_bits(self) -> u64 {
        match self {
            ObjectKind::Object => 0,
            ObjectKind::Array => 1,
        }
    }

    pub open spec fn spec_from_bits(bits: u64) -> ObjectKind {
        if bits == 0 {
            ObjectKind::Object
        } else {
            ObjectKind::Array
        }
    }

    pub fn into_bits(self) -> (res: u64)
        ensures
            res == self.spec_bits(),
    {
        match self {
            ObjectKind::Object => 0,
            ObjectKind::Array => 1,
        }
    }

    /// Decodes the kind stored in a header; any value other than 0 and 1 is invalid.
    pub fn from_bits(bits: u64) -> (res: ObjectKind)
        requires
            bits < 2,
        ensures
            res == Self::spec_from_bits(bits),
            res.spec_bits() == bits,
    {
        if bits == 0 {
            ObjectKind::Object
        } else {
            ObjectKind::Array
        }
    }
}

/// The state of an allocation during a garbage collection.
#[derive(Debug, Clone, Copy, PartialEq, Eq, Structural)]
pub enum GcState {
    Unmarked,
    InProgress,
    Marked,
}

impl GcState {
    pub open spec fn spec_bits(self) -> u64 {
        match self {
            GcState::Unmarked => 0,
            GcState::InProgress => 1,
            GcState::Marked => 2,
        }
    }

    pub open spec fn spec_from_bits(bits: u64) -> GcState {
        if bits == 0 {
            GcState::Unmarked
        } else if bits == 1 {
            GcState::InProgress
        } else {
            GcState::Marked
        }
    }

    pub fn into_bits(self) -> (res: u64)
        ensures
            res == self.spec_bits(),
    {
        match self {
            GcState::Unmarked => 0,
            GcState::InProgress => 1,
            GcState::Marked => 2,
        }
    }

    /// Decodes the state stored in a header; 3 is not a valid state.
    pub fn from_bits(bits: u64) -> (res: GcState)
        requires
            bits < 3,
        ensures
            res == Self::spec_from_bits(bits),
            res.spec_bits() == bits,
    {
        if bits == 0 {
            GcState::Unmarked
        } else if bits == 1 {
            GcState::InProgress
        } else {
            GcState::Marked
        }
    }
}

/// Size in bytes of the allocation header.
pub const ALLOC_HEADER_SIZE: usize = 8;

/// Size in bytes of the header of an object: its class id.
pub const OBJECT_HEADER_SIZE: usize = 4;

/// Size in bytes of the header of an array: its element type and its length.
pub const ARRAY_HEADER_SIZE: usize = 12;

/// Rounds `size` up to a whole number of words.
pub fn align_to_word(size: usize) -> (res: usize)
    requires
        size + 7 <= usize::MAX,
    ensures
        res % 8 == 0,
        size <= res < size + 8,
{
    (size + 7) / 8 * 8
}

/// The size in bytes of an object with the given number of fields. Each field takes 8
/// bytes: some memory is wasted for fields that would fit in 4, but field offsets are
/// trivial and aligned.
pub fn size_of_object(num_total_fields: usize) -> (res: usize)
    requires
        16 + 8 * num_total_fields <= usize::MAX,
    ensures
        res == 16 + 8 * num_total_fields,
{
    let fields_sizes: usize = 8 * num_total_fields;
    let res = align_to_word(ALLOC_HEADER_SIZE + OBJECT_HEADER_SIZE + fields_sizes);
    assert(res == 16 + 8 * num_total_fields) by (nonlinear_arith)
        requires
            res % 8 == 0,
            12 + fields_sizes <= res < 20 + fields_sizes,
            fields_sizes == 8 * num_total_fields,
    ;
    res
}

/// The size in bytes of an array with the given length, each entry taking 8 bytes.
pub fn size_of_array(length: usize) -> (res: usize)
    requires
        24 + 8 * length <= usize::MAX,
    ensures
        res == 24 + 8 * length,
{
    let entries_sizes: usize = length * 8;
    let res = align_to_word(ALLOC_HEADER_SIZE + ARRAY_HEADER_SIZE + entries_sizes);
    assert(res == 24 + 8 * length) by (nonlinear_arith)
        requires
            res % 8 == 0,
            20 + entries_sizes <= res < 28 + entries_sizes,
            entries_sizes == 8 * length,
    ;
    res
}

/// Bits of the allocation header (least significant first): 1 bit for the kind, 2 for
/// the gc state, 29 for the identity hash code and 32 for the allocation size.
pub open spec fn hdr_kind(h: u64) -> u64 {
    h & 1
}

pub open spec fn hdr_state(h: u64) -> u64 {
    (h >> 1u64) & 3
}

pub open spec fn hdr_hash(h: u64) -> u64 {
    (h >> 3u64) & 0x1fff_ffff
}

pub open spec fn hdr_size(h: u64) -> u64 {
    h >> 32u64
}

pub open spec fn make_hdr(kind: u64, state: u64, hash: u64, size: u64) -> u64 {
    kind | (state << 1u64) | (hash << 3u64) | (size << 32u64)
}

pub open spec fn hdr_with_state(h: u64, state: u64) -> u64 {
    (h & !6u64) | (state << 1u64)
}

/// The fields of a header read back what it was made with.
pub proof fn lemma_make_hdr(kind: u64, state: u64, hash: u64, size: u64)
    requires
        kind < 2,
        state < 4,
        hash < 0x2000_0000,
        size < 0x1_0000_0000,
    ensures
        hdr_kind(make_hdr(kind, state, hash, size)) == kind,
        hdr_state(make_hdr(kind, state, hash, size)) == state,
        hdr_hash(make_hdr(kind, state, hash, size)) == hash,
        hdr_size(make_hdr(kind, state, hash, size)) == size,
{
    assert(hdr_kind(make_hdr(kind, state, hash, size)) == kind) by (bit_vector)
        requires
            kind < 2,
            state < 4,
            hash < 0x2000_0000,
            size < 0x1_0000_0000,
    ;
    assert(hdr_state(make_hdr(kind, state, hash, size)) == state) by (bit_vector)
        requires
            kind < 2,
            state < 4,
            hash < 0x2000_0000,
            size < 0x1_0000_0000,
    ;
    assert(hdr_hash(make_hdr(kind, state, hash, size)) == hash) by (bit_vector)
        requires
            kind < 2,
            state < 4,
            hash < 0x2000_0000,
            size < 0x1_0000_0000,
    ;
    assert(hdr_size(make_hdr(kind, state, hash, size)) == size) by (bit_vector)
        requires
            kind < 2,
            state < 4,
            hash < 0x2000_0000,
            size < 0x1_0000_0000,
    ;
}

/// Changing the state of a header leaves its other fields alone.
pub proof fn lemma_hdr_with_state(h: u64, state: u64)
    requires
        state < 4,
    ensures
        hdr_state(hdr_with_state(h, state)) == state,
        hdr_kind(hdr_with_state(h, state)) == hdr_kind(h),
        hdr_hash(hdr_with_state(h, state)) == hdr_hash(h),
        hdr_size(hdr_with_state(h, state)) == hdr_size(h),
        hdr_with_state(hdr_with_state(h, state), hdr_state(h)) == h,
{
    assert(hdr_state(hdr_with_state(h, state)) == state) by (bit_vector)
        requires
            state < 4,
    ;
    assert(hdr_kind(hdr_with_state(h, state)) == hdr_kind(h)) by (bit_vector)
        requires
            state < 4,
    ;
    assert(hdr_hash(hdr_with_state(h, state)) == hdr_hash(h)) by (bit_vector)
        requires
            state < 4,
    ;
    assert(hdr_size(hdr_with_state(h, state)) == hdr_size(h)) by (bit_vector)
        requires
            state < 4,
    ;
    assert(hdr_with_state(hdr_with_state(h, state), hdr_state(h)) == h) by (bit_vector)
        requires
            state < 4,
    ;
}

/// The bounds of the header fields.
pub proof fn lemma_hdr_bounds(h: u64)
    ensures
        hdr_kind(h) < 2,
        hdr_state(h) < 4,
        hdr_hash(h) < 0x2000_0000,
        hdr_size(h) < 0x1_0000_0000,
{
    assert(hdr_kind(h) < 2) by (bit_vector);
    assert(hdr_state(h) < 4) by (bit_vector);
    assert(hdr_hash(h) < 0x2000_0000) by (bit_vector);
    assert(hdr_size(h) < 0x1_0000_0000) by (bit_vector);
}

/// The allocation header that starts each object and each array.
#[derive(Debug, Clone, Copy, PartialEq, Eq, Structural)]
pub struct AllocHeader(pub u64);

impl AllocHeader {
    pub fn new(kind: ObjectKind, state: GcState, identity_hash_code: i32, size: usize) -> (res:
        AllocHeader)
        requires
            0 <= identity_hash_code < 0x2000_0000,
            size < 0x1_0000_0000,
        ensures
            res.0 == make_hdr(
                kind.spec_bits(),
                state.spec_bits(),
                identity_hash_code as u64,
                size as u64,
            ),
            hdr_kind(res.0) == kind.spec_bits(),
            hdr_state(res.0) == state.spec_bits(),
            hdr_hash(res.0) == identity_hash_code,
            hdr_size(res.0) == size,
    {
        let k = kind.into_bits();
        let s = state.into_bits();
        let h = identity_hash_code as u64;
        let z = size as u64;
        proof {
            lemma_make_hdr(k, s, h, z);
        }
        AllocHeader(k | (s << 1u64) | (h << 3u64) | (z << 32u64))
    }

    pub fn kind(&self) -> (res: ObjectKind)
        ensures
            res == ObjectKind::spec_from_bits(hdr_kind(self.0)),
            res.spec_bits() == hdr_kind(self.0),
    {
        proof {
            lemma_hdr_bounds(self.0);
        }
        ObjectKind::from_bits(self.0 & 1)
    }

    /// The gc state; a header never holds the invalid state 3.
    pub fn state(&self) -> (res: GcState)
        requires
            hdr_state(self.0) < 3,
        ensures
            res == GcState::spec_from_bits(hdr_state(self.0)),
            res.spec_bits() == hdr_state(self.0),
    {
        GcState::from_bits((self.0 >> 1u64) & 3)
    }

    pub fn identity_hash_code(&self) -> (res: i32)
        ensures
            res == hdr_hash(self.0),
            0 <= res < 0x2000_0000,
    {
        proof {
            lemma_hdr_bounds(self.0);
        }
        ((self.0 >> 3u64) & 0x1fff_ffff) as i32
    }

    pub fn size(&self) -> (res: usize)
        ensures
            res == hdr_size(self.0),
    {
        proof {
            lemma_hdr_bounds(self.0);
        }
        (self.0 >> 32u64) as usize
    }

    pub fn with_state(self, state: GcState) -> (res: AllocHeader)
        ensures
            res.0 == hdr_with_state(self.0, state.spec_bits()),
            hdr_state(res.0) == state.spec_bits(),
            hdr_kind(res.0) == hdr_kind(self.0),
            hdr_hash(res.0) == hdr_hash(self.0),
            hdr_size(res.0) == hdr_size(self.0),
    {
        let s = state.into_bits();
        proof {
            lemma_hdr_with_state(self.0, s);
        }
        AllocHeader((self.0 & !6u64) | (s << 1u64))
    }
}

/// The identity hash code of the object at `address`: the 29 least significant bits of
/// the address xor-ed with its upper half.
pub open spec fn address_hash(address: u64) -> u64 {
    ((address >> 32u64) ^ address) & 0x1fff_ffff
}

pub fn identity_hash_code(address: usize) -> (res: i32)
    ensures
        res == address_hash(address as u64),
        0 <= res < 0x2000_0000,
{
    let addr = address as u64;
    // Keep the 29 least significant bits, since that is what the header stores.
    let mask: u64 = 1u64 << 29u64;
    assert(mask == 0x2000_0000) by (bit_vector)
        requires
            mask == 1u64 << 29u64,
    ;
    let hash = ((addr >> 32u64) ^ addr) & (mask - 1);
    assert(hash < 0x2000_0000) by (bit_vector)
        requires
            hash == ((addr >> 32u64) ^ addr) & 0x1fff_ffff,
    ;
    hash as i32
}

/// The string that a sequence of UTF-16 code units encodes, when they are valid UTF-16:
/// a unit outside `0xD800..=0xDFFF` is a character by itself; a high surrogate
/// (`0xD800..=0xDBFF`) followed by a low one (`0xDC00..=0xDFFF`) is the character
/// `0x10000 + (high - 0xD800) * 0x400 + (low - 0xDC00)`; any other surrogate makes the
/// units invalid.
pub open spec fn utf16_decoded(units: Seq<u16>) -> Option<Seq<char>>
    decreases units.len(),
{
    if units.len() == 0 {
        Some(Seq::<char>::empty())
    } else {
        let u = units[0] as int;
        if u < 0xD800 || u > 0xDFFF {
            match utf16_decoded(units.drop_first()) {
                Some(rest) => Some(seq![u as char] + rest),
                None => None,
            }
        } else if u <= 0xDBFF && units.len() >= 2 && 0xDC00 <= units[1] <= 0xDFFF {
            let c = 0x10000 + (u - 0xD800) * 0x400 + (units[1] - 0xDC00);
            match utf16_decoded(units.subrange(2, units.len() as int)) {
                Some(rest) => Some(seq![c as char] + rest),
                None => None,
            }
        } else {
            None
        }
    }
}

/// `String::from_utf16`: decodes UTF-16 code units, or fails when they are not valid
/// UTF-16 (an unpaired surrogate). The contract claims that the result is the decoding
/// `utf16_decoded` states.
#[verifier::external_body]
fn decode_utf16(units: &[u16]) -> (res: Option<String>)
    ensures
        match utf16_decoded(units@) {
            Some(cs) => res matches Some(s) && s@ == cs,
            None => res is None,
        },
{
    String::from_utf16(units).ok()
}

/// The UTF-16 code units of an array of `char`: the low 16 bits of each entry.
pub open spec fn char_units(words: Seq<u64>) -> Seq<u16> {
    Seq::new(
        (words[2] as int) as nat,
        |i: int| (read_entry_word(words[3 + i], ArrayEntryType::Base(BaseType::Char))->Int_0) as u16,
    )
}

/// The string held by an array of `char`, whose entries must be valid UTF-16. Fails when
/// the value is not an array of `char`.
pub fn string_from_char_array(array: AbstractObject, heap: &ObjectAllocator, classes: &ClassManager) -> (res: Result<String, VmError>)
    requires
        heap.wf(classes.table()),
        heap.is_object(array),
        ({
            let w = heap.object_words(array);
            hdr_kind(w[0]) == 1 && decode_entry_type(w[1]) == ArrayEntryType::Base(BaseType::Char)
                ==> utf16_decoded(char_units(w)) is Some
        }),
    ensures
        ({
            let w = heap.object_words(array);
            if hdr_kind(w[0]) != 1 || decode_entry_type(w[1]) != ArrayEntryType::Base(BaseType::Char) {
                res == Err::<String, VmError>(VmError::ValidationException)
            } else {
                res matches Ok(r) && Some(r@) == utf16_decoded(char_units(w))
            }
        }),
{
    if array.kind(heap, classes) != ObjectKind::Array {
        return Err(VmError::ValidationException);
    }
    let elements_type = array.elements_type(heap, classes);
    if !elements_type.equals(&ArrayEntryType::Base(BaseType::Char)) {
        return Err(VmError::ValidationException);
    }
    let ghost w = heap.object_words(array);
    let len = array.len(heap, classes) as usize;
    let mut string_chars: Vec<u16> = Vec::new();
    let mut i: usize = 0;
    while i < len
        invariant
            heap.wf(classes.table()),
            heap.is_object(array),
            w == heap.object_words(array),
            hdr_kind(w[0]) == 1,
            decode_entry_type(w[1]) == ArrayEntryType::Base(BaseType::Char),
            len == w[2],
            i <= len,
            string_chars@ == char_units(w).take(i as int),
        decreases len - i,
    {
        let next = match array.get_element(heap, classes, i) {
            Ok(Value::Int(c)) => c as u16,
            _ => {
                proof {
                    assert(false);
                }
                0
            },
        };
        string_chars.push(next);
        i = i + 1;
        proof {
            assert(string_chars@ =~= char_units(w).take(i as int));
        }
    }
    proof {
        assert(char_units(w).take(i as int) =~= char_units(w));
    }
    match decode_utf16(string_chars.as_slice()) {
        Some(s) => Ok(s),
        None => {
            proof {
                assert(false);
            }
            Err(VmError::ValidationException)
        },
    }
}

} // verus!
