use vstd::prelude::*;

use crate::abstract_object::{
    hdr_with_state, lemma_hdr_with_state,
    hdr_hash, hdr_kind, hdr_size, hdr_state, identity_hash_code, address_hash, lemma_hdr_bounds,
    lemma_make_hdr, make_hdr, AbstractObject, AllocHeader, GcState, ObjectKind,
    size_of_array, size_of_object,
};
use crate::alloc_entry::AllocEntry;
use crate::array_entry_type::{
    entry_type_word_valid,
    decode_entry_type, encode_entry_type, entry_type_word_is_reference, lemma_entry_type_roundtrip,
    ArrayEntryType,
};
use crate::class::{Class, ClassFileField, ClassId};
use crate::class_manager::{all_fields, lemma_all_fields_prefix, lemma_field_at_all_fields};
use crate::value::{
    lemma_read_after_write, read_entry_word, read_value, read_value2, read_value_word, write_value, write_value_word, Value,
};
use crate::vm_error::VmError;
use crate::field_type::{BaseType, FieldType};
use crate::class_manager::{
    class_of, declares_supertype, has_class, is_subclass, law_subclass_of_declared, law_subclass_reflexive,
    reference_mask, table_wf, ClassManager,
};
use crate::heap_layout::{
    lemma_copies_total_mono, lemma_copies_total_prefix, lemma_copies_total_strict, lemma_sum_copied_empty, lemma_reach_closed, lemma_tiles_disjoint,
    copies_total, lemma_copies_total_step, in_prefix, is_child, first_slot, holds_ref, moved_word, lemma_reach_child, lemma_sum_copied_bound,
    lemma_sum_copied_insert, lemma_sum_copied_union, lemma_tiling_distinct, lemma_unmarked_count, reach, reachable,
    sum_copied, target, unmarked_count,
    heap_ok, lemma_heap_extend, lemma_heap_write_slot, lemma_tile_ok_frame, lemma_tiling_bounds, ref_ok, slot_count, slot_index, slot_is_ref,
    tile_layout_ok, tile_ok, tile_words, tiling, ENTRIES_OFFSET, FIELDS_OFFSET,
};

verus! {

/// A region of memory in which allocations are laid one after the other.
pub struct MemoryChunk {
    /// The words of the region, zero-initialised
    memory: Vec<u64>,
    /// The address of the region's first byte
    base: usize,
    /// Bytes in use, from the start of the region
    used: usize,
    /// Size of the region in bytes
    capacity: usize,
}

impl MemoryChunk {
    spec fn wf(&self) -> bool {
        &&& self.base > 0
        &&& self.base % 8 == 0
        &&& self.used % 8 == 0
        &&& self.used <= self.capacity
        &&& self.memory@.len() == self.capacity / 8
        &&& self.base + self.capacity + 8 <= usize::MAX
    }

    /// Words in use.
    spec fn used_words(&self) -> int {
        self.used as int / 8
    }

    fn new(base: usize, capacity: usize) -> (res: Self)
        requires
            base > 0,
            base % 8 == 0,
            base + capacity + 8 <= usize::MAX,
        ensures
            res.wf(),
            res.base == base,
            res.capacity == capacity,
            res.used == 0,
            forall|i: int| 0 <= i < res.memory@.len() ==> res.memory@[i] == 0,
    {
        let n = capacity / 8;
        let mut memory: Vec<u64> = Vec::with_capacity(n);
        let mut i: usize = 0;
        while i < n
            invariant
                i <= n,
                memory@.len() == i,
                forall|k: int| 0 <= k < i ==> memory@[k] == 0,
            decreases n - i,
        {
            memory.push(0);
            i = i + 1;
        }
        MemoryChunk { memory, base, used: 0, capacity }
    }

    /// Reserves `required_size` bytes at the end of the used part of the region; the
    /// reserved words read as zero.
    fn allocate_entry(&mut self, required_size: usize) -> (res: Option<AllocEntry>)
        requires
            old(self).wf(),
            // We need all allocations to be aligned to 8
            required_size % 8 == 0,
        ensures
            final(self).wf(),
            final(self).base == old(self).base,
            final(self).capacity == old(self).capacity,
            required_size > old(self).capacity - old(self).used ==> res is None && *final(self)
                == *old(self),
            required_size <= old(self).capacity - old(self).used ==> {
                &&& res == Some(
                    AllocEntry { ptr: (old(self).base + old(self).used) as usize, alloc_size: required_size },
                )
                &&& final(self).used == old(self).used + required_size
                &&& final(self).memory@.len() == old(self).memory@.len()
                &&& forall|k: int|
                    0 <= k < final(self).memory@.len() ==> #[trigger] final(self).memory@[k] == if old(self).used_words() <= k < final(self).used_words() {
                        0
                    } else {
                        old(self).memory@[k]
                    }
            },
    {
        if required_size > self.capacity - self.used {
            return None;
        }
        let start = self.used / 8;
        let end = start + required_size / 8;
        let mut k = start;
        while k < end
            invariant
                self.wf(),
                self.base == old(self).base,
                self.capacity == old(self).capacity,
                self.used == old(self).used,
                start == old(self).used_words(),
                end == start + required_size / 8,
                end <= self.memory@.len(),
                start <= k <= end,
                forall|i: int|
                    0 <= i < self.memory@.len() ==> #[trigger] self.memory@[i] == if start <= i < k {
                        0
                    } else {
                        old(self).memory@[i]
                    },
            decreases end - k,
        {
            self.memory.set(k, 0);
            k = k + 1;
        }
        let ptr = self.base + self.used;
        self.used = self.used + required_size;
        Some(AllocEntry { ptr, alloc_size: required_size })
    }

    /// Whether `ptr` points inside the used part of the region (or just after it).
    fn contains(&self, ptr: usize) -> (res: bool)
        requires
            self.wf(),
        ensures
            res == (self.base <= ptr <= self.base + self.used),
    {
        ptr >= self.base && ptr <= self.base + self.used
    }

    fn read_word(&self, index: usize) -> (w: u64)
        requires
            index < self.memory@.len(),
        ensures
            w == self.memory@[index as int],
    {
        self.memory[index]
    }

    fn write_word(&mut self, index: usize, w: u64)
        requires
            index < old(self).memory@.len(),
        ensures
            final(self).memory@ == old(self).memory@.update(index as int, w),
            final(self).base == old(self).base,
            final(self).used == old(self).used,
            final(self).capacity == old(self).capacity,
    {
        self.memory.set(index, w);
    }
}

/// The heap of the virtual machine: a copying collector with two semi-spaces of the
/// same size. Objects are allocated in the current one; a collection copies the live
/// objects to the other one and swaps the two.
pub struct ObjectAllocator {
    current: MemoryChunk,
    other: MemoryChunk,
    /// The first words of the allocations of the current region, in order
    tiles: Ghost<Seq<int>>,
    /// During a collection: the allocations copied so far, in the order of their copies
    sources: Ghost<Seq<int>>,
    /// During a collection: where each copied allocation went in the other region
    forward: Ghost<Map<int, int>>,
}

impl ObjectAllocator {
    /// Whether the heap is well formed for the given loaded classes.
    pub closed spec fn wf(&self, classes: Seq<Class>) -> bool {
        &&& self.current.wf()
        &&& self.other.wf()
        &&& self.current.capacity == self.other.capacity
        &&& (self.current.base + self.current.capacity + 8 <= self.other.base
            || self.other.base + self.other.capacity + 8 <= self.current.base)
        &&& self.other.used == 0
        &&& heap_ok(
            self.current.memory@,
            self.current.base as int,
            self.current.used_words(),
            self.tiles@,
            classes,
            0,
        )
    }

    /// Whether `o` is an object or an array allocated on the heap.
    pub closed spec fn is_object(&self, o: AbstractObject) -> bool {
        let a = o.address() as int;
        &&& a >= self.current.base
        &&& (a - self.current.base) % 8 == 0
        &&& self.tiles@.contains((a - self.current.base) / 8)
    }

    /// The words of the allocation of `o`, its header first.
    pub closed spec fn object_words(&self, o: AbstractObject) -> Seq<u64> {
        let t = (o.address() - self.current.base) / 8;
        self.current.memory@.subrange(t, t + tile_words(self.current.memory@, t))
    }

    /// Bytes still available for allocations.
    pub closed spec fn free_bytes(&self) -> int {
        self.current.capacity - self.current.used
    }

    /// Bytes in use.
    pub closed spec fn used_bytes(&self) -> int {
        self.current.used as int
    }

    /// The address at which the region of the allocations starts.
    pub closed spec fn region_start(&self) -> int {
        self.current.base as int
    }

    /// The size in bytes of each region: what `with_maximum_memory` was given, halved.
    pub closed spec fn region_capacity(&self) -> int {
        self.current.capacity as int
    }

    /// The other region, where a collection copies what it keeps.
    pub closed spec fn spare_region(&self) -> MemoryChunk {
        self.other
    }

    /// The bytes still available for allocations.
    pub fn free_memory(&self) -> (res: usize)
        ensures
            res == if self.free_bytes() >= 0 {
                self.free_bytes()
            } else {
                0
            },
    {
        if self.current.used <= self.current.capacity {
            self.current.capacity - self.current.used
        } else {
            0
        }
    }

    /// The bytes in use.
    pub fn used_memory(&self) -> (res: usize)
        ensures
            res == self.used_bytes(),
    {
        self.current.used
    }

    /// Creates a heap of at most `max_size` bytes, half for each semi-space.
    pub fn with_maximum_memory(max_size: usize) -> (res: Self)
        requires
            max_size + 48 <= usize::MAX,
        ensures
            forall|classes: Seq<Class>| res.wf(classes),
            res.free_bytes() == max_size / 2,
            res.region_capacity() == max_size / 2,
            res.used_bytes() == 0,
            forall|o: AbstractObject| !res.is_object(o),
    {
        let semi_space_capacity = max_size / 2;
        let current = MemoryChunk::new(8, semi_space_capacity);
        let other_base = 8 + (semi_space_capacity / 8 + 2) * 8;
        let other = MemoryChunk::new(other_base, semi_space_capacity);
        let res = Self {
            current,
            other,
            tiles: Ghost(Seq::empty()),
            sources: Ghost(Seq::empty()),
            forward: Ghost(Map::empty()),
        };
        assert forall|o: AbstractObject| !res.is_object(o) by {}
        res
    }

    /// The words of a freshly allocated object or array: its header, then `second` (the
    /// class id or the entry type), then `third` for arrays (the length), then zeros.
    pub open spec fn fresh_words(header: u64, second: u64, third: Option<u64>, len: int) -> Seq<
        u64,
    > {
        Seq::new(
            len as nat,
            |i: int|
                if i == 0 {
                    header
                } else if i == 1 {
                    second
                } else if i == 2 && third is Some {
                    third->0
                } else {
                    0
                },
        )
    }

    /// The objects of `self` are still there, unchanged, in `other`.
    pub open spec fn keeps_objects(&self, other: &ObjectAllocator) -> bool {
        forall|p: AbstractObject|
            #[trigger] self.is_object(p) ==> other.is_object(p) && other.object_words(p)
                == self.object_words(p)
    }

    /// Reserves the words of a new allocation of `size` bytes, and writes its header and
    /// its second (and third) word.
    fn allocate_tile(
        &mut self,
        Ghost(classes): Ghost<Seq<Class>>,
        size: usize,
        kind: ObjectKind,
        second: u64,
        third: Option<u64>,
    ) -> (res: Option<AbstractObject>)
        requires
            old(self).wf(classes),
            size % 8 == 0,
            size >= 16,
            third is Some ==> size >= 24,
            (kind == ObjectKind::Object) == (third is None),
            size <= old(self).free_bytes() ==> size < 0x1_0000_0000,
        ensures
            size > old(self).free_bytes() ==> res is None && *final(self) == *old(self),
            size <= old(self).free_bytes() ==> (res matches Some(o) && {
                &&& !old(self).is_object(o)
                &&& final(self).is_object(o)
                &&& old(self).keeps_objects(final(self))
                &&& forall|p: AbstractObject|
                    #[trigger] final(self).is_object(p) ==> old(self).is_object(p) || p == o
                &&& final(self).object_words(o) == Self::fresh_words(
                    make_hdr(kind.spec_bits(), 0, address_hash(o.address() as u64), size as u64),
                    second,
                    third,
                    size as int / 8,
                )
                &&& final(self).free_bytes() == old(self).free_bytes() - size
                &&& final(self).current.wf()
                &&& final(self).other == old(self).other
                &&& final(self).current.base == old(self).current.base
                &&& final(self).current.capacity == old(self).current.capacity
                &&& final(self).current.used == old(self).current.used + size
                &&& final(self).tiles@ == old(self).tiles@.push(old(self).current.used_words())
                &&& final(self).current.memory@.len() == old(self).current.memory@.len()
                &&& forall|k: int|
                    0 <= k < old(self).current.used_words() ==> final(self).current.memory@[k]
                        == old(self).current.memory@[k]
                &&& o.address() == old(self).current.base + old(self).current.used
                &&& forall|k: int|
                    0 <= k < size / 8 ==> final(self).current.memory@[old(self).current.used_words()
                        + k] == #[trigger] Self::fresh_words(
                        make_hdr(
                            kind.spec_bits(),
                            0,
                            address_hash(o.address() as u64),
                            size as u64,
                        ),
                        second,
                        third,
                        size as int / 8,
                    )[k]
                &&& hdr_size(final(self).current.memory@[old(self).current.used_words()]) == size
                &&& hdr_kind(final(self).current.memory@[old(self).current.used_words()])
                    == kind.spec_bits()
                &&& hdr_state(final(self).current.memory@[old(self).current.used_words()]) == 0
                &&& final(self).current.memory@[old(self).current.used_words() + 1] == second
                &&& third is Some ==> final(self).current.memory@[old(self).current.used_words()
                    + 2] == third->0
                &&& forall|k: int|
                    old(self).current.used_words() + (if third is Some {
                        3int
                    } else {
                        2
                    }) <= k < old(self).current.used_words() + size / 8 ==> final(self).current.memory@[k] == 0
            }),
    {
        let ghost old_words = self.current.memory@;
        let ghost t0 = self.current.used_words();
        match self.current.allocate_entry(size) {
            None => None,
            Some(alloc_entry) => {
                let t = (alloc_entry.ptr - self.current.base) / 8;
                assert(t == t0);
                let hash = identity_hash_code(alloc_entry.ptr);
                let header = AllocHeader::new(kind, GcState::Unmarked, hash, size);
                self.current.write_word(t, header.0);
                self.current.write_word(t + 1, second);
                match third {
                    Some(w) => self.current.write_word(t + 2, w),
                    None => {},
                }
                let o = AbstractObject::at(alloc_entry.ptr);
                proof {
                    let w = self.current.memory@;
                    lemma_tiling_bounds(old_words, t0, self.tiles@);
                    assert(tile_words(w, t0) == size / 8);
                    assert forall|k: int| 0 <= k < t0 implies w[k] == old_words[k] by {}
                    assert(!old(self).is_object(o)) by {
                        if old(self).tiles@.contains(t0) {
                            let j = choose|j: int|
                                0 <= j < old(self).tiles@.len() && old(self).tiles@[j] == t0;
                            assert(old(self).tiles@[j] < t0);
                        }
                    }
                    assert forall|k: int| 0 <= k < size / 8 implies w[t0 + k] == #[trigger] Self::fresh_words(
                        header.0,
                        second,
                        third,
                        size as int / 8,
                    )[k] by {}
                    assert forall|k: int|
                        t0 + (if third is Some {
                            3int
                        } else {
                            2
                        }) <= k < t0 + size / 8 implies w[k] == 0 by {}
                    assert(w.subrange(t0, t0 + size / 8) =~= Self::fresh_words(
                        header.0,
                        second,
                        third,
                        size as int / 8,
                    ));
                }
                self.tiles = Ghost(self.tiles@.push(t as int));
                proof {
                    assert(self.tiles@[self.tiles@.len() - 1] == t0);
                    assert(self.tiles@.contains(t0));
                    assert forall|p: AbstractObject| #[trigger] old(self).is_object(p) implies self.is_object(
                        p,
                    ) && self.object_words(p) == old(self).object_words(p) by {
                        let tp = (p.address() - self.current.base) / 8;
                        let j = choose|j: int|
                            0 <= j < old(self).tiles@.len() && old(self).tiles@[j] == tp;
                        assert(self.tiles@[j] == tp);
                        lemma_tiling_bounds(old_words, t0, old(self).tiles@);
                        assert(old_words[tp] == self.current.memory@[tp]);
                        assert(self.object_words(p) =~= old(self).object_words(p));
                    }
                    assert forall|p: AbstractObject| #[trigger] self.is_object(p) implies old(self).is_object(p) || p == o by {
                        let tp = (p.address() - self.current.base) / 8;
                        let j = choose|j: int| 0 <= j < self.tiles@.len() && self.tiles@[j] == tp;
                        if j < old(self).tiles@.len() {
                            assert(old(self).tiles@[j] == tp);
                        } else {
                            AbstractObject::lemma_address_injective(p, o);
                        }
                    }
                }
                Some(o)
            },
        }
    }

    /// Allocates an object of the given class, with all its fields zero; `None` when
    /// the current region has no room for it.
    pub fn allocate(&mut self, classes: &ClassManager, class: &Class) -> (res: Option<
        AbstractObject,
    >)
        requires
            old(self).wf(classes.table()),
            classes.wf(),
            has_class(classes.table(), class.id@ as int),
            class_of(classes.table(), class.id@ as int) == *class,
            16 + 8 * class.num_total_fields <= usize::MAX,
            16 + 8 * class.num_total_fields <= old(self).free_bytes() ==> 16 + 8 * class.num_total_fields
                < 0x1_0000_0000,
        ensures
            final(self).wf(classes.table()),
            16 + 8 * class.num_total_fields > old(self).free_bytes() ==> res is None && *final(self) == *old(self),
            16 + 8 * class.num_total_fields <= old(self).free_bytes() ==> (res matches Some(o)
                && {
                &&& !old(self).is_object(o)
                &&& final(self).is_object(o)
                &&& old(self).keeps_objects(final(self))
                &&& forall|p: AbstractObject|
                    #[trigger] final(self).is_object(p) ==> old(self).is_object(p) || p == o
                &&& final(self).object_words(o) == Self::fresh_words(
                    make_hdr(
                        0,
                        0,
                        address_hash(o.address() as u64),
                        (16 + 8 * class.num_total_fields) as u64,
                    ),
                    class.id@ as u64,
                    None,
                    2 + class.num_total_fields,
                )
                &&& final(self).free_bytes() == old(self).free_bytes() - (16 + 8
                    * class.num_total_fields)
                &&& o.address() == old(self).region_start() + old(self).used_bytes()
                &&& final(self).region_start() == old(self).region_start()
                &&& final(self).spare_region() == old(self).spare_region()
            }),
    {
        let size = size_of_object(class.num_total_fields);
        let res = self.allocate_tile(
            Ghost(classes.table()),
            size,
            ObjectKind::Object,
            class.id.as_u32() as u64,
            None,
        );
        proof {
            classes.lemma_wf();
            if res is Some {
                self.lemma_new_tile_ok(*old(self), classes.table());
            }
        }
        res
    }

    /// Allocates an array with entries of the given type, all zero; `None` when the
    /// current region has no room for it.
    pub fn allocate_array(
        &mut self,
        classes: &ClassManager,
        elements_type: ArrayEntryType,
        length: usize,
    ) -> (res: Option<AbstractObject>)
        requires
            old(self).wf(classes.table()),
            classes.wf(),
            24 + 8 * length <= usize::MAX,
            24 + 8 * length <= old(self).free_bytes() ==> 24 + 8 * length < 0x1_0000_0000,
        ensures
            final(self).wf(classes.table()),
            24 + 8 * length > old(self).free_bytes() ==> res is None && *final(self) == *old(self),
            24 + 8 * length <= old(self).free_bytes() ==> (res matches Some(o) && {
                &&& !old(self).is_object(o)
                &&& final(self).is_object(o)
                &&& old(self).keeps_objects(final(self))
                &&& forall|p: AbstractObject|
                    #[trigger] final(self).is_object(p) ==> old(self).is_object(p) || p == o
                &&& final(self).object_words(o) == Self::fresh_words(
                    make_hdr(1, 0, address_hash(o.address() as u64), (24 + 8 * length) as u64),
                    encode_entry_type(elements_type),
                    Some(length as u64),
                    3 + length,
                )
                &&& final(self).free_bytes() == old(self).free_bytes() - (24 + 8 * length)
                &&& o.address() == old(self).region_start() + old(self).used_bytes()
                &&& final(self).region_start() == old(self).region_start()
                &&& final(self).spare_region() == old(self).spare_region()
            }),
    {
        let size = size_of_array(length);
        let res = self.allocate_tile(
            Ghost(classes.table()),
            size,
            ObjectKind::Array,
            elements_type.encode(),
            Some(length as u64),
        );
        proof {
            classes.lemma_wf();
            if res is Some {
                self.lemma_new_tile_ok(*old(self), classes.table());
            }
        }
        res
    }

    /// A new allocation at the end of the used words, laid out as its header says and
    /// holding zeros, keeps the heap well formed.
    proof fn lemma_new_tile_ok(&self, before: ObjectAllocator, classes: Seq<Class>)
        requires
            before.wf(classes),
            table_wf(classes),
            self.current.wf(),
            self.other == before.other,
            self.current.base == before.current.base,
            self.current.capacity == before.current.capacity,
            self.tiles@ == before.tiles@.push(before.current.used_words()),
            self.current.memory@.len() == before.current.memory@.len(),
            forall|k: int|
                0 <= k < before.current.used_words() ==> self.current.memory@[k]
                    == before.current.memory@[k],
            ({
                let w = self.current.memory@;
                let t = before.current.used_words();
                &&& self.current.used_words() == t + tile_words(w, t)
                &&& hdr_size(w[t]) % 8 == 0
                &&& tile_words(w, t) >= 2
                &&& hdr_state(w[t]) == 0
                &&& tile_layout_ok(w, t, classes)
                &&& forall|k: int| t + (if hdr_kind(w[t]) == 0 { 2int } else { 3 }) <= k < t
                    + tile_words(w, t) ==> w[k] == 0
            }),
        ensures
            self.wf(classes),
    {
        let w = self.current.memory@;
        let t = before.current.used_words();
        let tiles2 = before.tiles@.push(t);
        assert forall|i: int|
            0 <= i < slot_count(w, t, classes) && slot_is_ref(w, t, classes, i) implies ref_ok(
            self.current.base as int,
            tiles2,
            w[#[trigger] slot_index(w, t, i)],
        ) by {
            assert(w[slot_index(w, t, i)] == 0);
        }
        lemma_heap_extend(
            before.current.memory@,
            w,
            self.current.base as int,
            t,
            before.tiles@,
            classes,
        );
    }
}

impl ObjectAllocator {
    /// What well-formedness tells of the layout of an allocation.
    pub proof fn lemma_object_layout(&self, classes: Seq<Class>, o: AbstractObject)
        requires
            self.wf(classes),
            self.is_object(o),
        ensures
            ({
                let w = self.object_words(o);
                &&& w.len() == hdr_size(w[0]) / 8
                &&& w.len() < 0x2000_0000
                &&& hdr_state(w[0]) == 0
                &&& hdr_kind(w[0]) < 2
                &&& hdr_kind(w[0]) == 0 ==> has_class(classes, w[1] as int) && w.len() == 2
                    + class_of(classes, w[1] as int).num_total_fields
                &&& hdr_kind(w[0]) == 1 ==> w.len() == 3 + w[2] && w[2] < 0x1_0000_0000
                    && entry_type_word_valid(w[1])
            }),
            o.address() > 0,
    {
        let words = self.current.memory@;
        let t = (o.address() - self.current.base) / 8;
        lemma_tiling_bounds(words, self.current.used_words(), self.tiles@);
        let j = choose|j: int| 0 <= j < self.tiles@.len() && self.tiles@[j] == t;
        assert(tile_ok(words, self.current.base as int, self.tiles@, classes, 0, self.tiles@[j]));
        lemma_hdr_bounds(words[t]);
        let w = self.object_words(o);
        assert(w[0] == words[t]);
        assert(w[1] == words[t + 1]);
        if hdr_kind(words[t]) == 1 {
            assert(w[2] == words[t + 2]);
        }
    }

    /// An entry of an array of the heap can be stored back in the heap.
    pub proof fn lemma_entry_storable(&self, classes: Seq<Class>, o: AbstractObject, i: int)
        requires
            self.wf(classes),
            self.is_object(o),
            hdr_kind(self.object_words(o)[0]) == 1,
            0 <= i < self.object_words(o)[2],
        ensures
            storable(
                self,
                read_entry_word(self.object_words(o)[3 + i], decode_entry_type(self.object_words(o)[1])),
                entry_type_word_is_reference(self.object_words(o)[1]),
            ),
    {
        let words = self.current.memory@;
        let t = (o.address() - self.current.base) / 8;
        lemma_tiling_bounds(words, self.current.used_words(), self.tiles@);
        let j = choose|j: int| 0 <= j < self.tiles@.len() && self.tiles@[j] == t;
        assert(tile_ok(words, self.current.base as int, self.tiles@, classes, 0, self.tiles@[j]));
        let w = self.object_words(o);
        assert(w[1] == words[t + 1]);
        assert(w[2] == words[t + 2]);
        assert(w[3 + i] == words[slot_index(words, t, i)]);
        let v = w[3 + i];
        if entry_type_word_is_reference(w[1]) {
            assert(ref_ok(self.current.base as int, self.tiles@, v));
            if v != 0 {
                let p = AbstractObject::spec_at(v as usize);
                AbstractObject::lemma_spec_at(p);
                lemma_tiling_bounds(words, self.current.used_words(), self.tiles@);
                let jv = choose|jv: int| 0 <= jv < self.tiles@.len() && self.tiles@[jv] == (v - self.current.base) / 8;
                assert(v as usize == v);
                assert(self.is_object(p));
            }
        }
    }

    /// The index of the first word of the allocation of `o`.
    fn tile_index(&self, o: AbstractObject) -> (t: usize)
        requires
            self.current.wf(),
            self.is_object(o),
            tiling(self.current.memory@, self.current.used_words(), self.tiles@),
        ensures
            t == (o.address() - self.current.base) / 8,
            t + tile_words(self.current.memory@, t as int) <= self.current.memory@.len(),
    {
        proof {
            lemma_tiling_bounds(self.current.memory@, self.current.used_words(), self.tiles@);
        }
        (o.addr() - self.current.base) / 8
    }

    /// Word `k` of the allocation of `o`.
    fn object_word(&self, o: AbstractObject, k: usize) -> (w: u64)
        requires
            self.current.wf(),
            self.is_object(o),
            tiling(self.current.memory@, self.current.used_words(), self.tiles@),
            k < self.object_words(o).len(),
        ensures
            w == self.object_words(o)[k as int],
    {
        let t = self.tile_index(o);
        self.current.read_word(t + k)
    }

    /// Stores `w` in field, or entry, `i` of the allocation of `o`.
    fn write_slot(&mut self, Ghost(classes): Ghost<Seq<Class>>, o: AbstractObject, i: usize, w: u64)
        requires
            old(self).wf(classes),
            old(self).is_object(o),
            i < (if hdr_kind(old(self).object_words(o)[0]) == 0 {
                class_of(classes, old(self).object_words(o)[1] as int).num_total_fields as int
            } else {
                old(self).object_words(o)[2] as int
            }),
            (if hdr_kind(old(self).object_words(o)[0]) == 0 {
                reference_mask(classes, old(self).object_words(o)[1] as int)[i as int]
            } else {
                entry_type_word_is_reference(old(self).object_words(o)[1])
            }) ==> ref_ok(old(self).current.base as int, old(self).tiles@, w),
        ensures
            final(self).wf(classes),
            forall|p: AbstractObject| #[trigger] final(self).is_object(p) == old(self).is_object(p),
            forall|p: AbstractObject|
                #[trigger] old(self).is_object(p) && p != o ==> final(self).object_words(p) == old(self).object_words(p),
            final(self).object_words(o) == old(self).object_words(o).update(
                (if hdr_kind(old(self).object_words(o)[0]) == 0 { 2 + i } else { 3 + i }),
                w,
            ),
            final(self).free_bytes() == old(self).free_bytes(),
    {
        let t = self.tile_index(o);
        let ghost words = self.current.memory@;
        proof {
            self.lemma_object_layout(classes, o);
            let ow = self.object_words(o);
            assert(ow[0] == words[t as int]);
            assert(ow[1] == words[t + 1]);
            if hdr_kind(ow[0]) == 1 {
                assert(ow[2] == words[t + 2]);
            }
            lemma_heap_write_slot(
                words,
                self.current.base as int,
                self.current.used_words(),
                self.tiles@,
                classes,
                t as int,
                i as int,
                w,
            );
        }
        let k = if AllocHeader(self.current.read_word(t)).kind().into_bits() == 0 {
            t + 2 + i
        } else {
            t + 3 + i
        };
        self.current.write_word(k, w);
        proof {
            assert forall|p: AbstractObject| #[trigger] self.is_object(p) == old(self).is_object(p) by {}
            assert forall|p: AbstractObject|
                #[trigger] old(self).is_object(p) && p != o implies self.object_words(p) == old(self).object_words(p) by {
                let tp = (p.address() - self.current.base) / 8;
                if tp == t {
                    AbstractObject::lemma_address_injective(p, o);
                }
                assert(self.tiles@.contains(tp));
                lemma_tiling_bounds(words, self.current.used_words(), self.tiles@);
                let n = tile_words(words, tp);
                assert(self.current.memory@.subrange(tp, tp + n)[0] == words.subrange(tp, tp + n)[0]);
                assert(self.current.memory@[tp] == words[tp]);
            }
        }
    }
}

/// Whether `v` may be stored in a field, or an entry, that holds references (when
/// `reference`) or primitive values: a reference must be null or lead to an object of
/// the heap.
pub open spec fn storable(heap: &ObjectAllocator, v: Value, reference: bool) -> bool {
    reference ==> match v {
        Value::Null | Value::Uninitialized => true,
        Value::Object(p) => heap.is_object(p),
        _ => false,
    }
}

impl AbstractObject {
    /// Whether the allocation is an object or an array.
    pub fn kind(&self, heap: &ObjectAllocator, classes: &ClassManager) -> (res: ObjectKind)
        requires
            heap.wf(classes.table()),
            heap.is_object(*self),
        ensures
            res.spec_bits() == hdr_kind(heap.object_words(*self)[0]),
    {
        proof {
            heap.lemma_object_layout(classes.table(), *self);
        }
        let h = AllocHeader(heap.object_word(*self, 0));
        h.kind()
    }

    /// The size in bytes of the allocation.
    pub fn alloc_size(&self, heap: &ObjectAllocator, classes: &ClassManager) -> (res: usize)
        requires
            heap.wf(classes.table()),
            heap.is_object(*self),
        ensures
            res == hdr_size(heap.object_words(*self)[0]),
    {
        proof {
            heap.lemma_object_layout(classes.table(), *self);
        }
        let h = AllocHeader(heap.object_word(*self, 0));
        h.size()
    }

    /// The identity hash code, fixed when the object was allocated.
    pub fn identity_hash_code(&self, heap: &ObjectAllocator, classes: &ClassManager) -> (res:
        i32)
        requires
            heap.wf(classes.table()),
            heap.is_object(*self),
        ensures
            res == hdr_hash(heap.object_words(*self)[0]),
    {
        proof {
            heap.lemma_object_layout(classes.table(), *self);
        }
        let h = AllocHeader(heap.object_word(*self, 0));
        h.identity_hash_code()
    }

    /// The class of an object.
    pub fn class_id(&self, heap: &ObjectAllocator, classes: &ClassManager) -> (res: ClassId)
        requires
            heap.wf(classes.table()),
            classes.wf(),
            heap.is_object(*self),
            hdr_kind(heap.object_words(*self)[0]) == 0,
        ensures
            res@ == heap.object_words(*self)[1],
            has_class(classes.table(), res@ as int),
    {
        proof {
            heap.lemma_object_layout(classes.table(), *self);
            classes.lemma_wf();
        }
        ClassId::new(heap.object_word(*self, 1) as u32)
    }

    /// The type of the entries of an array.
    pub fn elements_type(&self, heap: &ObjectAllocator, classes: &ClassManager) -> (res:
        ArrayEntryType)
        requires
            heap.wf(classes.table()),
            heap.is_object(*self),
            hdr_kind(heap.object_words(*self)[0]) == 1,
        ensures
            res == decode_entry_type(heap.object_words(*self)[1]),
    {
        proof {
            heap.lemma_object_layout(classes.table(), *self);
        }
        ArrayEntryType::decode(heap.object_word(*self, 1))
    }

    /// The length of an array.
    pub fn len(&self, heap: &ObjectAllocator, classes: &ClassManager) -> (res: u32)
        requires
            heap.wf(classes.table()),
            heap.is_object(*self),
            hdr_kind(heap.object_words(*self)[0]) == 1,
        ensures
            res == heap.object_words(*self)[2],
            heap.object_words(*self).len() == 3 + res,
    {
        proof {
            heap.lemma_object_layout(classes.table(), *self);
        }
        heap.object_word(*self, 2) as u32
    }

    pub fn is_empty(&self, heap: &ObjectAllocator, classes: &ClassManager) -> (res: bool)
        requires
            heap.wf(classes.table()),
            heap.is_object(*self),
            hdr_kind(heap.object_words(*self)[0]) == 1,
        ensures
            res == (heap.object_words(*self)[2] == 0),
    {
        self.len(heap, classes) == 0
    }

    /// The value of field `index` of an object, read as the type the class declares.
    pub fn get_field(&self, heap: &ObjectAllocator, classes: &ClassManager, index: usize) -> (res:
        Value)
        requires
            heap.wf(classes.table()),
            classes.wf(),
            heap.is_object(*self),
            hdr_kind(heap.object_words(*self)[0]) == 0,
            index < class_of(classes.table(), heap.object_words(*self)[1] as int).num_total_fields,
        ensures
            res == read_value_word(
                heap.object_words(*self)[2 + index],
                all_fields(classes.table(), heap.object_words(*self)[1] as int)[index as int].type_descriptor,
            ),
    {
        let class_id = self.class_id(heap, classes);
        proof {
            classes.lemma_wf();
            heap.lemma_object_layout(classes.table(), *self);
            lemma_field_at_all_fields(classes.table(), class_id@ as int, index as int);
        }
        let field = classes.field_at_index(class_id, index).unwrap();
        read_value(heap.object_word(*self, 2 + index), &field.type_descriptor)
    }

    /// Stores `value` in field `index` of an object. A field that holds references may
    /// only receive null or an object of the heap.
    pub fn set_field(
        &self,
        heap: &mut ObjectAllocator,
        classes: &ClassManager,
        index: usize,
        value: Value,
    )
        requires
            old(heap).wf(classes.table()),
            classes.wf(),
            old(heap).is_object(*self),
            hdr_kind(old(heap).object_words(*self)[0]) == 0,
            index < class_of(classes.table(), old(heap).object_words(*self)[1] as int).num_total_fields,
            storable(
                old(heap),
                value,
                all_fields(classes.table(), old(heap).object_words(*self)[1] as int)[index as int].type_descriptor.is_reference(),
            ),
        ensures
            final(heap).wf(classes.table()),
            forall|p: AbstractObject| #[trigger] final(heap).is_object(p) == old(heap).is_object(p),
            forall|p: AbstractObject|
                #[trigger] old(heap).is_object(p) && p != *self ==> final(heap).object_words(p) == old(heap).object_words(p),
            final(heap).object_words(*self) == old(heap).object_words(*self).update(
                2 + index,
                write_value_word(old(heap).object_words(*self)[2 + index], value),
            ),
            final(heap).free_bytes() == old(heap).free_bytes(),
    {
        proof {
            classes.lemma_wf();
            heap.lemma_object_layout(classes.table(), *self);
            lemma_field_at_all_fields(
                classes.table(),
                heap.object_words(*self)[1] as int,
                index as int,
            );
        }
        let old_word = heap.object_word(*self, 2 + index);
        let w = write_value(old_word, value);
        proof {
            if all_fields(classes.table(), heap.object_words(*self)[1] as int)[index as int].type_descriptor.is_reference() {
                Self::lemma_storable_ref_ok(heap, value, old_word);
            }
        }
        heap.write_slot(Ghost(classes.table()), *self, index, w);
    }

    /// A storable value is written as a valid reference.
    proof fn lemma_storable_ref_ok(heap: &ObjectAllocator, value: Value, old_word: u64)
        requires
            heap.current.wf(),
            storable(heap, value, true),
        ensures
            ref_ok(heap.current.base as int, heap.tiles@, write_value_word(old_word, value)),
    {
    }

    /// Entry `index` of an array, or an error when the index is out of bounds.
    pub fn get_element(&self, heap: &ObjectAllocator, classes: &ClassManager, index: usize) -> (res:
        Result<Value, VmError>)
        requires
            heap.wf(classes.table()),
            heap.is_object(*self),
            hdr_kind(heap.object_words(*self)[0]) == 1,
        ensures
            index >= heap.object_words(*self)[2] ==> res == Err::<Value, VmError>(
                VmError::ArrayIndexOutOfBoundsException,
            ),
            index < heap.object_words(*self)[2] ==> res == Ok::<Value, VmError>(
                read_entry_word(
                    heap.object_words(*self)[3 + index],
                    decode_entry_type(heap.object_words(*self)[1]),
                ),
            ),
    {
        proof {
            heap.lemma_object_layout(classes.table(), *self);
        }
        if index >= self.len(heap, classes) as usize {
            Err(VmError::ArrayIndexOutOfBoundsException)
        } else {
            let entry_type = self.elements_type(heap, classes);
            Ok(read_value2(heap.object_word(*self, 3 + index), &entry_type))
        }
    }

    /// Stores `value` in entry `index` of an array, whatever its type, or fails when the
    /// index is out of bounds. An array of references may only receive null or objects of
    /// the heap.
    pub(crate) fn store_element(
        &self,
        heap: &mut ObjectAllocator,
        classes: &ClassManager,
        index: usize,
        value: Value,
    ) -> (res: Result<(), VmError>)
        requires
            old(heap).wf(classes.table()),
            old(heap).is_object(*self),
            hdr_kind(old(heap).object_words(*self)[0]) == 1,
            storable(
                old(heap),
                value,
                entry_type_word_is_reference(old(heap).object_words(*self)[1]),
            ),
        ensures
            final(heap).wf(classes.table()),
            forall|p: AbstractObject| #[trigger] final(heap).is_object(p) == old(heap).is_object(p),
            forall|p: AbstractObject|
                #[trigger] old(heap).is_object(p) && p != *self ==> final(heap).object_words(p) == old(heap).object_words(p),
            final(heap).free_bytes() == old(heap).free_bytes(),
            index >= old(heap).object_words(*self)[2] ==> res == Err::<(), VmError>(
                VmError::ArrayIndexOutOfBoundsException,
            ) && final(heap).object_words(*self) == old(heap).object_words(*self),
            index < old(heap).object_words(*self)[2] ==> res is Ok && final(heap).object_words(*self)
                == old(heap).object_words(*self).update(
                3 + index,
                write_value_word(old(heap).object_words(*self)[3 + index], value),
            ),
    {
        if index >= self.len(heap, classes) as usize {
            Err(VmError::ArrayIndexOutOfBoundsException)
        } else {
            proof {
                heap.lemma_object_layout(classes.table(), *self);
            }
            let old_word = heap.object_word(*self, 3 + index);
            let w = write_value(old_word, value);
            proof {
                if entry_type_word_is_reference(heap.object_words(*self)[1]) {
                    Self::lemma_storable_ref_ok(heap, value, old_word);
                }
            }
            heap.write_slot(Ghost(classes.table()), *self, index, w);
            Ok(())
        }
    }

    /// Whether an entry of this array can hold `value`: a primitive of the entry type (an
    /// `Int` for the small integer types), or, for an array of references, null or an
    /// object of the right kind (an instance of the entry class or of one of its
    /// subclasses, or an array).
    pub fn accepts(&self, heap: &ObjectAllocator, classes: &ClassManager, value: &Value) -> (res: bool)
        requires
            heap.wf(classes.table()),
            classes.wf(),
            heap.is_object(*self),
            hdr_kind(heap.object_words(*self)[0]) == 1,
            *value matches Value::Object(o) ==> heap.is_object(o),
        ensures
            res == entry_accepts(*heap, classes.table(), decode_entry_type(heap.object_words(*self)[1]), *value),
    {
        match self.elements_type(heap, classes) {
            ArrayEntryType::Base(b) => match value {
                Value::Int(_) => matches!(
                    b,
                    BaseType::Int | BaseType::Byte | BaseType::Char | BaseType::Short | BaseType::Boolean
                ),
                Value::Long(_) => b.equals(&BaseType::Long),
                Value::Float(_) => b.equals(&BaseType::Float),
                Value::Double(_) => b.equals(&BaseType::Double),
                _ => false,
            },
            ArrayEntryType::Object(entry_class) => match value {
                Value::Null => true,
                Value::Object(o) => {
                    match o.kind(heap, classes) {
                        ObjectKind::Object => {
                            let object_class = o.class_id(heap, classes);
                            match classes.find_class_by_id(entry_class) {
                                Some(_) => classes.is_subclass_of(object_class, entry_class),
                                None => false,
                            }
                        },
                        ObjectKind::Array => false,
                    }
                },
                _ => false,
            },
            ArrayEntryType::Array => match value {
                Value::Null => true,
                Value::Object(o) => match o.kind(heap, classes) {
                    ObjectKind::Object => false,
                    ObjectKind::Array => true,
                },
                _ => false,
            },
        }
    }

    /// Stores `value` in entry `index` of an array. Fails, leaving the array as it was,
    /// when the index is out of bounds, or else when the value does not match the type of
    /// the entries.
    pub fn set_element(
        &self,
        heap: &mut ObjectAllocator,
        classes: &ClassManager,
        index: usize,
        value: Value,
    ) -> (res: Result<(), VmError>)
        requires
            old(heap).wf(classes.table()),
            classes.wf(),
            old(heap).is_object(*self),
            hdr_kind(old(heap).object_words(*self)[0]) == 1,
            value matches Value::Object(o) ==> old(heap).is_object(o),
        ensures
            final(heap).wf(classes.table()),
            forall|p: AbstractObject| #[trigger] final(heap).is_object(p) == old(heap).is_object(p),
            forall|p: AbstractObject|
                #[trigger] old(heap).is_object(p) && p != *self ==> final(heap).object_words(p) == old(heap).object_words(p),
            final(heap).free_bytes() == old(heap).free_bytes(),
            index >= old(heap).object_words(*self)[2] ==> res == Err::<(), VmError>(
                VmError::ArrayIndexOutOfBoundsException,
            ) && final(heap).object_words(*self) == old(heap).object_words(*self),
            index < old(heap).object_words(*self)[2] && !entry_accepts(
                *old(heap),
                classes.table(),
                decode_entry_type(old(heap).object_words(*self)[1]),
                value,
            ) ==> res == Err::<(), VmError>(VmError::ValidationException) && final(heap).object_words(*self)
                == old(heap).object_words(*self),
            index < old(heap).object_words(*self)[2] && entry_accepts(
                *old(heap),
                classes.table(),
                decode_entry_type(old(heap).object_words(*self)[1]),
                value,
            ) ==> res is Ok && final(heap).object_words(*self) == old(heap).object_words(*self).update(
                3 + index,
                write_value_word(old(heap).object_words(*self)[3 + index], value),
            ),
    {
        proof {
            heap.lemma_object_layout(classes.table(), *self);
        }
        if index >= self.len(heap, classes) as usize {
            return Err(VmError::ArrayIndexOutOfBoundsException);
        }
        if !self.accepts(heap, classes, &value) {
            return Err(VmError::ValidationException);
        }
        proof {
            lemma_entry_type_roundtrip(decode_entry_type(heap.object_words(*self)[1]));
        }
        self.store_element(heap, classes, index, value)
    }
}

/// Whether an entry of an array whose entries have type `entry_type` can hold `v`: a
/// primitive of that type (an `Int` for the small integer types), or, for an array of
/// references, null or an object of the right kind: an instance of the entry class or of
/// one of its subclasses, or an array.
pub open spec fn entry_accepts(heap: ObjectAllocator, t: Seq<Class>, entry_type: ArrayEntryType, v: Value) -> bool {
    match entry_type {
        ArrayEntryType::Base(b) => match v {
            Value::Int(_) => b == BaseType::Int || b == BaseType::Byte || b == BaseType::Char
                || b == BaseType::Short || b == BaseType::Boolean,
            Value::Long(_) => b == BaseType::Long,
            Value::Float(_) => b == BaseType::Float,
            Value::Double(_) => b == BaseType::Double,
            _ => false,
        },
        ArrayEntryType::Object(c) => match v {
            Value::Null => true,
            Value::Object(o) => hdr_kind(heap.object_words(o)[0]) == 0 && is_subclass(
                t,
                heap.object_words(o)[1] as int,
                c@ as int,
            ),
            _ => false,
        },
        ArrayEntryType::Array => match v {
            Value::Null => true,
            Value::Object(o) => hdr_kind(heap.object_words(o)[0]) == 1,
            _ => false,
        },
    }
}

/// The header of any allocation of a well-formed heap: an object or an array; its size
/// is `size_of_object` of the number of fields of its class, or `size_of_array` of its
/// length; its identity hash code is below 2^29.
pub proof fn law_allocation_header(heap: &ObjectAllocator, classes: Seq<Class>, o: AbstractObject)
    requires
        heap.wf(classes),
        heap.is_object(o),
    ensures
        ({
            let w = heap.object_words(o);
            &&& hdr_kind(w[0]) == 0 || hdr_kind(w[0]) == 1
            &&& hdr_kind(w[0]) == 0 ==> hdr_size(w[0]) == 16 + 8 * class_of(classes, w[1] as int).num_total_fields
            &&& hdr_kind(w[0]) == 1 ==> hdr_size(w[0]) == 24 + 8 * w[2]
            &&& 0 <= hdr_hash(w[0]) < 0x2000_0000
        }),
{
    heap.lemma_object_layout(classes, o);
    let words = heap.current.memory@;
    let t = (o.address() - heap.current.base) / 8;
    lemma_tiling_bounds(words, heap.current.used_words(), heap.tiles@);
    let j = choose|j: int| 0 <= j < heap.tiles@.len() && heap.tiles@[j] == t;
    assert(hdr_size(words[heap.tiles@[j]]) % 8 == 0);
    let w = heap.object_words(o);
    assert(w[0] == words[t]);
    lemma_hdr_bounds(w[0]);
}

/// Storing in a field or in an entry of an allocation, as `set_field` and `set_element`
/// do, changes neither its kind, nor its size, nor its identity hash code.
pub proof fn law_writes_keep_allocation_header(
    before: &ObjectAllocator,
    after: &ObjectAllocator,
    o: AbstractObject,
    k: int,
    x: u64,
)
    requires
        2 <= k < before.object_words(o).len(),
        after.object_words(o) == before.object_words(o).update(k, x),
    ensures
        hdr_kind(after.object_words(o)[0]) == hdr_kind(before.object_words(o)[0]),
        hdr_size(after.object_words(o)[0]) == hdr_size(before.object_words(o)[0]),
        hdr_hash(after.object_words(o)[0]) == hdr_hash(before.object_words(o)[0]),
{
    assert(after.object_words(o)[0] == before.object_words(o)[0]);
}

/// An array whose entries have class `c` accepts null, instances of `c`, and instances
/// of every class that names `c` as its superclass or as one of its interfaces.
pub proof fn law_array_accepts_subclass_instances(heap: ObjectAllocator, t: Seq<Class>, c: ClassId, o: AbstractObject)
    requires
        table_wf(t),
        has_class(t, c@ as int),
        hdr_kind(heap.object_words(o)[0]) == 0,
        has_class(t, heap.object_words(o)[1] as int),
        heap.object_words(o)[1] == c@ || declares_supertype(t, heap.object_words(o)[1] as int, c@ as int),
    ensures
        entry_accepts(heap, t, ArrayEntryType::Object(c), Value::Object(o)),
        entry_accepts(heap, t, ArrayEntryType::Object(c), Value::Null),
{
    let d = heap.object_words(o)[1] as int;
    if d == c@ {
        law_subclass_reflexive(t, d);
    } else {
        law_subclass_of_declared(t, d, c@ as int);
    }
}

/// Writing a value that the entries of an array accept, as `set_element` does, and
/// reading the entry back gives that value; the other entries read as before.
pub proof fn law_array_read_after_write(
    heap: &ObjectAllocator,
    classes: Seq<Class>,
    a: AbstractObject,
    i: int,
    v: Value,
)
    requires
        heap.wf(classes),
        heap.is_object(a),
        hdr_kind(heap.object_words(a)[0]) == 1,
        0 <= i < heap.object_words(a)[2],
        entry_accepts(*heap, classes, decode_entry_type(heap.object_words(a)[1]), v),
        v matches Value::Object(o) ==> heap.is_object(o),
    ensures
        ({
            let w = heap.object_words(a);
            let e = decode_entry_type(w[1]);
            let w2 = w.update(3 + i, write_value_word(w[3 + i], v));
            &&& read_entry_word(w2[3 + i], e) == v
            &&& forall|j: int|
                0 <= j < w[2] && j != i ==> #[trigger] read_entry_word(w2[3 + j], e) == read_entry_word(w[3 + j], e)
        }),
{
    heap.lemma_object_layout(classes, a);
    let w = heap.object_words(a);
    let e = decode_entry_type(w[1]);
    match v {
        Value::Object(o) => {
            assert(o.address() >= heap.current.base > 0);
        },
        _ => {},
    }
    match e {
        ArrayEntryType::Base(b) => lemma_read_after_write(w[3 + i], v, false, b),
        _ => lemma_read_after_write(w[3 + i], v, true, BaseType::Int),
    }
}

/// Whether `t` is on `stack`.
pub open spec fn on_stack(stack: Seq<usize>, t: int) -> bool {
    exists|k: int| 0 <= k < stack.len() && stack[k] as int == t
}

/// The number of entries of `s` that are `false`.
pub open spec fn count_false(s: Seq<bool>) -> nat
    decreases s.len(),
{
    if s.len() == 0 {
        0
    } else {
        count_false(s.drop_last()) + if s.last() {
            0nat
        } else {
            1nat
        }
    }
}

/// Setting a `false` entry to `true` leaves one `false` fewer.
proof fn lemma_count_false_update(s: Seq<bool>, i: int)
    requires
        0 <= i < s.len(),
        !s[i],
    ensures
        count_false(s.update(i, true)) + 1 == count_false(s),
    decreases s.len(),
{
    let s2 = s.update(i, true);
    if i == s.len() - 1 {
        assert(s2.drop_last() =~= s.drop_last());
    } else {
        lemma_count_false_update(s.drop_last(), i);
        assert(s2.drop_last() =~= s.drop_last().update(i, true));
    }
}

/// Whether the allocation at word `t` of the current region is as it was in `h0`, but
/// for its gc state, and for its second word that holds the address of its copy once it
/// has been copied.
pub open spec fn tile_state_ok(cur: Seq<u64>, h0: Seq<u64>, forward: Map<int, int>, b1: int, t: int) -> bool {
    &&& (cur[t] == h0[t] || cur[t] == hdr_with_state(h0[t], 2))
    &&& forward.dom().contains(t) ==> cur[t] == hdr_with_state(h0[t], 2) && cur[t + 1] == (b1 + 8
        * forward[t]) as u64
    &&& !forward.dom().contains(t) ==> cur[t + 1] == h0[t + 1]
    &&& forall|k: int| t + 2 <= k < t + tile_words(h0, t) ==> #[trigger] cur[k] == h0[k]
}

/// Whether the words at `c` of the other region are a copy of the allocation at `s` in
/// `h0`, marked.
pub open spec fn copy_ok(oth: Seq<u64>, h0: Seq<u64>, c: int, s: int) -> bool {
    &&& oth[c] == hdr_with_state(h0[s], 2)
    &&& forall|k: int| 1 <= k < tile_words(h0, s) ==> #[trigger] oth[c + k] == h0[s + k]
}

/// No reachable allocation is an array of arrays, which the collector does not support.
pub open spec fn no_reachable_nested_arrays(
    h0: Seq<u64>,
    b0: int,
    tiles: Seq<int>,
    classes: Seq<Class>,
    roots: Set<int>,
) -> bool {
    forall|t: int|
        #[trigger] tiles.contains(t) && reachable(h0, b0, classes, roots, t) ==> !(hdr_kind(h0[t])
            == 1 && h0[t + 1] == 8)
}

impl ObjectAllocator {
    spec fn marked(&self, t: int) -> bool {
        hdr_state(self.current.memory@[t]) == 2
    }

    spec fn count(&self) -> nat {
        unmarked_count(self.current.memory@, self.tiles@, self.tiles@.len() as int)
    }

    /// What holds while the reachable allocations are marked and copied: `h0` are the
    /// words of the current region when the collection started.
    #[verifier::opaque]
    spec fn mark_inv(&self, h0: Seq<u64>, classes: Seq<Class>, roots: Set<int>) -> bool {
        let cur = self.current.memory@;
        let oth = self.other.memory@;
        let b0 = self.current.base as int;
        let b1 = self.other.base as int;
        let tiles = self.tiles@;
        let forward = self.forward@;
        let sources = self.sources@;
        &&& self.current.wf()
        &&& self.other.wf()
        &&& self.current.capacity == self.other.capacity
        &&& (self.current.base + self.current.capacity + 8 <= self.other.base
            || self.other.base + self.other.capacity + 8 <= self.current.base)
        &&& table_wf(classes)
        &&& heap_ok(h0, b0, self.current.used_words(), tiles, classes, 0)
        &&& cur.len() == h0.len()
        &&& forall|j: int|
            0 <= j < tiles.len() ==> tile_state_ok(cur, h0, forward, b1, #[trigger] tiles[j])
        &&& forall|t: int| #[trigger] forward.dom().contains(t) <==> sources.contains(t)
        &&& sources.no_duplicates()
        &&& forall|i: int|
            0 <= i < sources.len() ==> tiles.contains(#[trigger] sources[i]) && forward[sources[i]]
                == copies_total(h0, sources, i) && copy_ok(
                oth,
                h0,
                copies_total(h0, sources, i),
                sources[i],
            )
        &&& self.other.used_words() == copies_total(h0, sources, sources.len() as int)
        &&& self.other.used_words() == sum_copied(h0, tiles, forward.dom(), tiles.len() as int)
        &&& forall|t: int, c: int|
            #[trigger] forward.dom().contains(t) && #[trigger] is_child(h0, b0, classes, t, c)
                ==> hdr_state(cur[c]) == 2
        &&& forall|j: int|
            0 <= j < tiles.len() && hdr_state(cur[#[trigger] tiles[j]]) == 2 ==> reachable(
                h0,
                b0,
                classes,
                roots,
                tiles[j],
            )
    }

    /// How the state of a collection may evolve: the regions stay where they are, copies
    /// are only added and marks are never removed.
    spec fn gc_progress(&self, after: Self) -> bool {
        &&& after.current.base == self.current.base
        &&& after.current.used == self.current.used
        &&& after.current.capacity == self.current.capacity
        &&& after.other.base == self.other.base
        &&& after.other.capacity == self.other.capacity
        &&& after.tiles@ == self.tiles@
        &&& forall|t: int|
            #[trigger] self.forward@.dom().contains(t) ==> after.forward@.dom().contains(t)
                && after.forward@[t] == self.forward@[t]
        &&& forall|t: int| self.tiles@.contains(t) && self.marked(t) ==> #[trigger] after.marked(t)
        &&& after.count() <= self.count()
    }

    /// What a complete visit leaves behind: each allocation it marked has been copied,
    /// and each one it copied was not marked before.
    spec fn visit_effect(&self, after: Self) -> bool {
        &&& forall|t: int|
            self.tiles@.contains(t) && #[trigger] after.marked(t) && !self.marked(t)
                ==> after.forward@.dom().contains(t)
        &&& forall|t: int|
            self.tiles@.contains(t) && #[trigger] after.forward@.dom().contains(t)
                && !self.forward@.dom().contains(t) ==> !self.marked(t)
    }

    /// The allocations, unmarked in this state, that can be reached from `start` by
    /// following at most `n` references through allocations unmarked in this state.
    spec fn unmarked_reach(&self, h0: Seq<u64>, ct: Seq<Class>, start: int, n: nat) -> Set<int>
        decreases n,
    {
        if n == 0 {
            if self.tiles@.contains(start) && !self.marked(start) {
                set![start]
            } else {
                Set::empty()
            }
        } else {
            let prev = self.unmarked_reach(h0, ct, start, (n - 1) as nat);
            prev.union(
                Set::new(
                    |c: int|
                        self.tiles@.contains(c) && !self.marked(c) && exists|t: int|
                            prev.contains(t) && is_child(h0, self.current.base as int, ct, t, c),
                ),
            )
        }
    }

    /// Whether `t` is unmarked and can be reached from `start` through unmarked
    /// allocations.
    spec fn reached_unmarked(&self, h0: Seq<u64>, ct: Seq<Class>, start: int, t: int) -> bool {
        exists|n: nat| #[trigger] self.unmarked_reach(h0, ct, start, n).contains(t)
    }

    /// Whether `t` is unmarked and can be reached, through unmarked allocations, from an
    /// allocation that one of the references of `ta` leads to.
    spec fn reached_from_children(&self, h0: Seq<u64>, ct: Seq<Class>, ta: int, t: int) -> bool {
        exists|c: int, n: nat|
            is_child(h0, self.current.base as int, ct, ta, c) && #[trigger] self.unmarked_reach(
                h0,
                ct,
                c,
                n,
            ).contains(t)
    }

    /// What is reached through unmarked allocations are unmarked allocations.
    proof fn lemma_unmarked_reach_unmarked(&self, h0: Seq<u64>, ct: Seq<Class>, s: int, n: nat)
        ensures
            forall|t: int| #[trigger] self.unmarked_reach(h0, ct, s, n).contains(t) ==> self.tiles@.contains(t) && !self.marked(t),
        decreases n,
    {
        if n > 0 {
            self.lemma_unmarked_reach_unmarked(h0, ct, s, (n - 1) as nat);
            let prev = self.unmarked_reach(h0, ct, s, (n - 1) as nat);
            assert forall|t: int| #[trigger] self.unmarked_reach(h0, ct, s, n).contains(t) implies self.tiles@.contains(t)
                && !self.marked(t) by {
                if prev.contains(t) {
                }
            }
        } else {
            assert forall|t: int| #[trigger] self.unmarked_reach(h0, ct, s, n).contains(t) implies self.tiles@.contains(t)
                && !self.marked(t) by {
                if self.tiles@.contains(s) && !self.marked(s) {
                    assert(self.unmarked_reach(h0, ct, s, 0) == set![s]);
                } else {
                    assert(self.unmarked_reach(h0, ct, s, 0) == Set::<int>::empty());
                }
            }
        }
    }

    /// The words taken in the other region grow by the sizes of the allocations that a
    /// visit copied: those reached through unmarked allocations from the visited one.
    proof fn lemma_visit_growth(&self, after: Self, h0: Seq<u64>, ct: Seq<Class>, roots: Set<int>, ta: int)
        requires
            self.mark_inv(h0, ct, roots),
            after.mark_inv(h0, ct, roots),
            self.gc_progress(after),
            forall|t: int|
                self.tiles@.contains(t) && #[trigger] after.forward@.dom().contains(t)
                    && !self.forward@.dom().contains(t) ==> self.reached_unmarked(h0, ct, ta, t),
            forall|t: int| #[trigger] self.reached_unmarked(h0, ct, ta, t) ==> after.forward@.dom().contains(t),
        ensures
            after.other.used_words() == self.other.used_words() + sum_copied(
                h0,
                self.tiles@,
                Set::new(|t: int| self.reached_unmarked(h0, ct, ta, t)),
                self.tiles@.len() as int,
            ),
    {
        reveal(ObjectAllocator::mark_inv);
        let r = Set::new(|t: int| self.reached_unmarked(h0, ct, ta, t));
        let f0 = self.forward@.dom();
        assert forall|t: int| r.contains(t) implies !f0.contains(t) by {
            let n = choose|n: nat| #[trigger] self.unmarked_reach(h0, ct, ta, n).contains(t);
            self.lemma_unmarked_reach_unmarked(h0, ct, ta, n);
            self.lemma_inv_tile(h0, ct, roots, t);
        }
        assert forall|t: int| #[trigger] after.forward@.dom().contains(t) implies f0.union(r).contains(t) by {
            let i = choose|i: int| 0 <= i < after.sources@.len() && after.sources@[i] == t;
            assert(after.tiles@.contains(after.sources@[i]));
        }
        assert(after.forward@.dom() =~= f0.union(r));
        lemma_sum_copied_union(h0, self.tiles@, f0, r, self.tiles@.len() as int);
    }

    /// Marking more allocations only shrinks what can be reached through unmarked ones.
    proof fn lemma_unmarked_reach_mono(&self, b: Self, h0: Seq<u64>, ct: Seq<Class>, s: int, n: nat)
        requires
            self.gc_progress(b),
        ensures
            forall|t: int| #[trigger] b.unmarked_reach(h0, ct, s, n).contains(t) ==> self.unmarked_reach(h0, ct, s, n).contains(t),
        decreases n,
    {
        if n > 0 {
            self.lemma_unmarked_reach_mono(b, h0, ct, s, (n - 1) as nat);
            let bp = b.unmarked_reach(h0, ct, s, (n - 1) as nat);
            let ap = self.unmarked_reach(h0, ct, s, (n - 1) as nat);
            assert forall|c: int| #[trigger] b.unmarked_reach(h0, ct, s, n).contains(c) implies self.unmarked_reach(h0, ct, s, n).contains(c) by {
                if !bp.contains(c) {
                    let t = choose|t: int| bp.contains(t) && is_child(h0, b.current.base as int, ct, t, c);
                    assert(ap.contains(t));
                    if self.marked(c) {
                        assert(b.marked(c));
                    }
                }
            }
        } else {
            if self.tiles@.contains(s) && self.marked(s) {
                assert(b.marked(s));
            }
        }
    }

    /// What can be reached from a child `c` of an unmarked allocation `ta`, after `ta`
    /// and maybe more were marked, could be reached from `ta` before, one step further.
    proof fn lemma_unmarked_reach_child(&self, ms: Self, h0: Seq<u64>, ct: Seq<Class>, ta: int, c: int, n: nat)
        requires
            self.gc_progress(ms),
            self.tiles@.contains(ta),
            !self.marked(ta),
            is_child(h0, self.current.base as int, ct, ta, c),
        ensures
            forall|t: int| #[trigger] ms.unmarked_reach(h0, ct, c, n).contains(t) ==> self.unmarked_reach(h0, ct, ta, n + 1).contains(t),
        decreases n,
    {
        assert(self.unmarked_reach(h0, ct, ta, 0).contains(ta));
        if n == 0 {
            assert forall|t: int| #[trigger] ms.unmarked_reach(h0, ct, c, n).contains(t) implies self.unmarked_reach(h0, ct, ta, n + 1).contains(t) by {
                assert(t == c);
                if self.marked(c) {
                    assert(ms.marked(c));
                }
            }
        } else {
            self.lemma_unmarked_reach_child(ms, h0, ct, ta, c, (n - 1) as nat);
            let mp = ms.unmarked_reach(h0, ct, c, (n - 1) as nat);
            let sp = self.unmarked_reach(h0, ct, ta, n);
            assert forall|t: int| #[trigger] ms.unmarked_reach(h0, ct, c, n).contains(t) implies self.unmarked_reach(h0, ct, ta, n + 1).contains(t) by {
                if mp.contains(t) {
                    assert(sp.contains(t));
                } else {
                    let u = choose|u: int| mp.contains(u) && is_child(h0, ms.current.base as int, ct, u, t);
                    assert(sp.contains(u));
                    if self.marked(t) {
                        assert(ms.marked(t));
                    }
                }
            }
        }
    }

    /// Nothing is reached through unmarked allocations from a marked one.
    proof fn lemma_unmarked_reach_marked(&self, h0: Seq<u64>, ct: Seq<Class>, s: int, n: nat)
        requires
            !(self.tiles@.contains(s) && !self.marked(s)),
        ensures
            forall|t: int| !(#[trigger] self.unmarked_reach(h0, ct, s, n).contains(t)),
        decreases n,
    {
        if n > 0 {
            self.lemma_unmarked_reach_marked(h0, ct, s, (n - 1) as nat);
            let prev = self.unmarked_reach(h0, ct, s, (n - 1) as nat);
            assert forall|t: int| !(#[trigger] self.unmarked_reach(h0, ct, s, n).contains(t)) by {
                assert(!prev.contains(t));
                if exists|u: int| prev.contains(u) && is_child(h0, self.current.base as int, ct, u, t) {
                    let u = choose|u: int| prev.contains(u) && is_child(h0, self.current.base as int, ct, u, t);
                    assert(!prev.contains(u));
                }
            }
        } else {
            assert forall|t: int| !(#[trigger] self.unmarked_reach(h0, ct, s, n).contains(t)) by {
                assert(self.unmarked_reach(h0, ct, s, 0) == Set::<int>::empty());
            }
        }
    }

    /// After a visit that copied `ta` (when it was unmarked), everything reached from it
    /// through unmarked allocations was copied.
    proof fn lemma_unmarked_reach_copied(&self, after: Self, h0: Seq<u64>, ct: Seq<Class>, roots: Set<int>, ta: int, n: nat)
        requires
            after.mark_inv(h0, ct, roots),
            self.gc_progress(after),
            self.visit_effect(after),
            self.tiles@.contains(ta) && !self.marked(ta) ==> after.forward@.dom().contains(ta),
        ensures
            forall|t: int| #[trigger] self.unmarked_reach(h0, ct, ta, n).contains(t) ==> after.forward@.dom().contains(t),
        decreases n,
    {
        reveal(ObjectAllocator::mark_inv);
        if n > 0 {
            self.lemma_unmarked_reach_copied(after, h0, ct, roots, ta, (n - 1) as nat);
            let prev = self.unmarked_reach(h0, ct, ta, (n - 1) as nat);
            assert forall|c: int| #[trigger] self.unmarked_reach(h0, ct, ta, n).contains(c) implies after.forward@.dom().contains(c) by {
                if !prev.contains(c) {
                    let t = choose|t: int| prev.contains(t) && is_child(h0, self.current.base as int, ct, t, c);
                    assert(after.forward@.dom().contains(t));
                    assert(hdr_state(after.current.memory@[c]) == 2);
                    assert(after.marked(c));
                }
            }
        }
    }

    proof fn lemma_gc_progress_refl(&self)
        ensures
            self.gc_progress(*self),
            self.visit_effect(*self),
    {
    }

    proof fn lemma_gc_progress_trans(&self, b: Self, c: Self)
        requires
            self.gc_progress(b),
            b.gc_progress(c),
        ensures
            self.gc_progress(c),
            self.visit_effect(b) && b.visit_effect(c) ==> self.visit_effect(c),
    {
        if self.visit_effect(b) && b.visit_effect(c) {
            assert forall|t: int|
                self.tiles@.contains(t) && #[trigger] c.marked(t) && !self.marked(t)
                    implies c.forward@.dom().contains(t) by {
                if b.marked(t) {
                    assert(b.forward@.dom().contains(t));
                }
            }
            assert forall|t: int|
                self.tiles@.contains(t) && #[trigger] c.forward@.dom().contains(t)
                    && !self.forward@.dom().contains(t) implies !self.marked(t) by {
                if !b.forward@.dom().contains(t) {
                    assert(!b.marked(t));
                }
            }
        }
    }

    /// What the invariant of a collection tells of one allocation.
    proof fn lemma_inv_tile(&self, h0: Seq<u64>, ct: Seq<Class>, roots: Set<int>, t: int)
        requires
            self.mark_inv(h0, ct, roots),
            self.tiles@.contains(t),
        ensures
            tile_ok(h0, self.current.base as int, self.tiles@, ct, 0, t),
            tile_state_ok(self.current.memory@, h0, self.forward@, self.other.base as int, t),
            0 <= t,
            tile_words(h0, t) >= 2,
            hdr_size(h0[t]) == 8 * tile_words(h0, t),
            t + tile_words(h0, t) <= self.current.used_words(),
            self.current.used_words() <= self.current.memory@.len(),
            self.current.memory@.len() == h0.len(),
            hdr_state(h0[t]) == 0,
            self.marked(t) <==> self.current.memory@[t] == hdr_with_state(h0[t], 2),
            !self.marked(t) <==> self.current.memory@[t] == h0[t],
            self.forward@.dom().contains(t) ==> self.marked(t),
            hdr_kind(self.current.memory@[t]) == hdr_kind(h0[t]),
            hdr_size(self.current.memory@[t]) == hdr_size(h0[t]),
            hdr_state(self.current.memory@[t]) == 0 || hdr_state(self.current.memory@[t]) == 2,
            self.current.wf(),
            self.other.wf(),
            table_wf(ct),
    {
        reveal(ObjectAllocator::mark_inv);
        let tiles = self.tiles@;
        lemma_tiling_bounds(h0, self.current.used_words(), tiles);
        let j = choose|j: int| 0 <= j < tiles.len() && tiles[j] == t;
        assert(tile_ok(h0, self.current.base as int, tiles, ct, 0, tiles[j]));
        assert(tile_state_ok(self.current.memory@, h0, self.forward@, self.other.base as int, tiles[j]));
        lemma_hdr_with_state(h0[t], 2);
    }

    /// A copy of an allocation that was not copied yet fits in the other region.
    proof fn lemma_copy_room(&self, h0: Seq<u64>, ct: Seq<Class>, roots: Set<int>, t: int)
        requires
            self.mark_inv(h0, ct, roots),
            self.tiles@.contains(t),
            !self.forward@.dom().contains(t),
        ensures
            self.other.used + 8 * tile_words(h0, t) <= self.other.capacity,
            sum_copied(h0, self.tiles@, self.forward@.dom().insert(t), self.tiles@.len() as int)
                == sum_copied(h0, self.tiles@, self.forward@.dom(), self.tiles@.len() as int)
                + tile_words(h0, t),
    {
        reveal(ObjectAllocator::mark_inv);
        let tiles = self.tiles@;
        let used = self.current.used_words();
        lemma_tiling_bounds(h0, used, tiles);
        lemma_tiling_distinct(h0, used, tiles);
        let j = choose|j: int| 0 <= j < tiles.len() && tiles[j] == t;
        assert(in_prefix(tiles, tiles.len() as int, t));
        lemma_sum_copied_insert(h0, tiles, self.forward@.dom(), t, tiles.len() as int);
        lemma_sum_copied_bound(h0, used, tiles, self.forward@.dom().insert(t), tiles.len() as int);
    }

    /// Marking an allocation reached from the roots keeps the invariant and lowers the
    /// number of unmarked allocations.
    proof fn lemma_after_mark(
        &self,
        before: Self,
        h0: Seq<u64>,
        ct: Seq<Class>,
        roots: Set<int>,
        depth: nat,
        ta: int,
    )
        requires
            before.mark_inv(h0, ct, roots),
            before.tiles@.contains(ta),
            !before.marked(ta),
            reach(h0, before.current.base as int, ct, roots, depth).contains(ta),
            self.current.memory@ == before.current.memory@.update(ta, hdr_with_state(h0[ta], 2)),
            self.current.base == before.current.base,
            self.current.used == before.current.used,
            self.current.capacity == before.current.capacity,
            self.other == before.other,
            self.tiles == before.tiles,
            self.sources == before.sources,
            self.forward == before.forward,
        ensures
            self.mark_inv(h0, ct, roots),
            before.gc_progress(*self),
            self.count() < before.count(),
            self.marked(ta),
            forall|t: int| before.tiles@.contains(t) && t != ta ==> #[trigger] self.marked(t) == before.marked(t),
    {
        reveal(ObjectAllocator::mark_inv);
        before.lemma_inv_tile(h0, ct, roots, ta);
        let cur = before.current.memory@;
        let cur2 = self.current.memory@;
        let tiles = self.tiles@;
        let b0 = self.current.base as int;
        let b1 = self.other.base as int;
        let used = self.current.used_words();
        lemma_hdr_with_state(h0[ta], 2);
        lemma_tiling_bounds(h0, used, tiles);
        lemma_tile_states_frame(cur, cur2, h0, self.forward@, self.forward@, b1, used, tiles, ta);
        assert forall|j: int| 0 <= j < tiles.len() implies tile_state_ok(cur2, h0, self.forward@, b1, #[trigger] tiles[j]) by {
            if tiles[j] == ta {
                assert forall|k: int| ta + 2 <= k < ta + tile_words(h0, ta) implies #[trigger] cur2[k] == h0[k] by {
                    assert(cur[k] == h0[k]);
                }
            }
        }
        assert forall|t: int, c: int|
            #[trigger] self.forward@.dom().contains(t) && #[trigger] is_child(h0, b0, ct, t, c)
                implies hdr_state(cur2[c]) == 2 by {
            assert(hdr_state(cur[c]) == 2);
        }
        assert forall|j: int|
            0 <= j < tiles.len() && hdr_state(cur2[#[trigger] tiles[j]]) == 2
                implies reachable(h0, b0, ct, roots, tiles[j]) by {
            if tiles[j] != ta {
                assert(cur2[tiles[j]] == cur[tiles[j]]);
            }
        }
        let jt = choose|j: int| 0 <= j < tiles.len() && tiles[j] == ta;
        lemma_unmarked_count(cur, cur2, tiles, tiles.len() as int, ta);
        assert forall|t: int| before.tiles@.contains(t) && t != ta implies #[trigger] self.marked(t) == before.marked(t) by {
            let j = choose|j: int| 0 <= j < tiles.len() && tiles[j] == t;
        }
        assert(self.mark_inv(h0, ct, roots));
    }
}

/// Changes confined to the words of the allocation at `ta` (and to its forwarding
/// entry) leave the state of the other allocations alone.
proof fn lemma_tile_states_frame(
    cur: Seq<u64>,
    cur2: Seq<u64>,
    h0: Seq<u64>,
    f: Map<int, int>,
    f2: Map<int, int>,
    b1: int,
    used: int,
    tiles: Seq<int>,
    ta: int,
)
    requires
        tiling(h0, used, tiles),
        tiles.contains(ta),
        cur.len() == cur2.len(),
        h0.len() == cur.len(),
        forall|j: int| 0 <= j < tiles.len() ==> tile_state_ok(cur, h0, f, b1, #[trigger] tiles[j]),
        forall|k: int| 0 <= k < cur.len() && !(ta <= k < ta + tile_words(h0, ta)) ==> #[trigger] cur2[k] == cur[k],
        forall|t: int| t != ta ==> (#[trigger] f.dom().contains(t) == f2.dom().contains(t)),
        forall|t: int| t != ta && #[trigger] f.dom().contains(t) ==> f2[t] == f[t],
        used <= cur.len(),
    ensures
        forall|j: int|
            0 <= j < tiles.len() && tiles[j] != ta ==> tile_state_ok(cur2, h0, f2, b1, #[trigger] tiles[j]),
{
    lemma_tiling_bounds(h0, used, tiles);
    assert forall|j: int| 0 <= j < tiles.len() && tiles[j] != ta implies tile_state_ok(
        cur2,
        h0,
        f2,
        b1,
        #[trigger] tiles[j],
    ) by {
        let t = tiles[j];
        assert(tiles.contains(t));
        assert(tile_state_ok(cur, h0, f, b1, t));
        assert(t + tile_words(h0, t) <= used);
        assert forall|k: int| t <= k < t + tile_words(h0, t) implies cur2[k] == cur[k] by {
            lemma_tiles_disjoint(h0, used, tiles, t, ta, k);
        }
        assert(cur2[t] == cur[t]);
        assert(cur2[t + 1] == cur[t + 1]);
        assert(f.dom().contains(t) == f2.dom().contains(t));
        if f.dom().contains(t) {
            assert(f2[t] == f[t]);
        }
        assert forall|k: int| t + 2 <= k < t + tile_words(h0, t) implies #[trigger] cur2[k] == h0[k] by {
            assert(cur2[k] == cur[k]);
        }
    }
}

impl ObjectAllocator {
    /// Copying a visited allocation, and recording where its copy went, restores the
    /// invariant of the collection.
    #[verifier::rlimit(40)]
    proof fn lemma_after_copy(
        &self,
        visited: ObjectAllocator,
        h0: Seq<u64>,
        ct: Seq<Class>,
        roots: Set<int>,
        ta: int,
        c: int,
    )
        requires
            visited.mark_inv(h0, ct, roots),
            visited.tiles@.contains(ta),
            visited.marked(ta),
            !visited.forward@.dom().contains(ta),
            forall|c2: int| #[trigger] is_child(h0, visited.current.base as int, ct, ta, c2) ==> visited.marked(c2),
            self.current.base == visited.current.base,
            self.current.used == visited.current.used,
            self.current.capacity == visited.current.capacity,
            self.current.memory@ == visited.current.memory@.update(
                ta + 1,
                (visited.other.base + 8 * c) as u64,
            ),
            self.other.wf(),
            self.other.base == visited.other.base,
            self.other.capacity == visited.other.capacity,
            self.other.memory@.len() == visited.other.memory@.len(),
            c == visited.other.used_words(),
            self.other.used_words() == c + tile_words(h0, ta),
            forall|m: int| 0 <= m < c ==> self.other.memory@[m] == visited.other.memory@[m],
            self.other.memory@.subrange(c, c + tile_words(h0, ta)) == visited.current.memory@.subrange(
                ta,
                ta + tile_words(h0, ta),
            ),
            c + tile_words(h0, ta) <= self.other.memory@.len(),
            self.tiles@ == visited.tiles@,
            self.sources@ == visited.sources@.push(ta),
            self.forward@ == visited.forward@.insert(ta, c),
            sum_copied(h0, visited.tiles@, visited.forward@.dom().insert(ta), visited.tiles@.len() as int)
                == sum_copied(h0, visited.tiles@, visited.forward@.dom(), visited.tiles@.len() as int)
                + tile_words(h0, ta),
        ensures
            self.mark_inv(h0, ct, roots),
            visited.gc_progress(*self),
            forall|t: int| visited.tiles@.contains(t) ==> #[trigger] self.marked(t) == visited.marked(t),
    {
        reveal(ObjectAllocator::mark_inv);
        visited.lemma_inv_tile(h0, ct, roots, ta);
        let b0 = self.current.base as int;
        let b1 = self.other.base as int;
        let cur = visited.current.memory@;
        let cur2 = self.current.memory@;
        let tiles = self.tiles@;
        let used = self.current.used_words();
        lemma_tiling_bounds(h0, used, tiles);
        lemma_tiling_distinct(h0, used, tiles);
        // the other allocations are unchanged
        lemma_tile_states_frame(cur, cur2, h0, visited.forward@, self.forward@, b1, used, tiles, ta);
        // the copied one now holds the address of its copy
        assert(tile_state_ok(cur2, h0, self.forward@, b1, ta)) by {
            assert forall|k: int| ta + 2 <= k < ta + tile_words(h0, ta) implies #[trigger] cur2[k] == h0[k] by {
                assert(cur2[k] == cur[k]);
            }
        }
        assert forall|j: int| 0 <= j < tiles.len() implies tile_state_ok(cur2, h0, self.forward@, b1, #[trigger] tiles[j]) by {
            if tiles[j] == ta {
            }
        }
        // the record of the copies
        let n = tile_words(h0, ta);
        assert forall|k: int| 0 <= k < n implies #[trigger] self.other.memory@[c + k] == cur[ta + k] by {
            assert(self.other.memory@.subrange(c, c + n)[k] == cur.subrange(ta, ta + n)[k]);
        }
        assert forall|k: int| 1 <= k < n implies #[trigger] self.other.memory@[c + k] == h0[ta + k] by {
            assert(self.other.memory@[c + k] == cur[ta + k]);
        }
        assert(self.other.memory@[c + 0] == cur[ta + 0]);
        assert forall|t: int| #[trigger] tiles.contains(t) implies tile_words(h0, t) >= 2 by {
            let j = choose|j: int| 0 <= j < tiles.len() && tiles[j] == t;
        }
        lemma_copy_record(
            visited.other.memory@,
            self.other.memory@,
            h0,
            visited.sources@,
            visited.forward@,
            tiles,
            ta,
            c,
        );
        // closure and reachability
        assert forall|t: int, c2: int|
            #[trigger] self.forward@.dom().contains(t) && #[trigger] is_child(h0, b0, ct, t, c2)
                implies hdr_state(cur2[c2]) == 2 by {
            if t == ta {
                assert(visited.marked(c2));
            } else {
                assert(visited.forward@.dom().contains(t));
            }
            assert(hdr_state(cur[c2]) == 2);
            if c2 == ta + 1 {
                let i = choose|i: int|
                    0 <= i < slot_count(h0, t, ct) && slot_is_ref(h0, t, ct, i) && h0[slot_index(h0, t, i)]
                        != 0 && c2 == #[trigger] target(b0, h0[slot_index(h0, t, i)]);
                let jt1 = choose|j: int| 0 <= j < tiles.len() && tiles[j] == t;
                assert(tile_ok(h0, b0, tiles, ct, 0, tiles[jt1]));
                assert(tiles.contains(c2));
                lemma_tiles_disjoint(h0, used, tiles, ta, c2, ta + 1);
            }
        }
        assert forall|j: int|
            0 <= j < tiles.len() && hdr_state(cur2[#[trigger] tiles[j]]) == 2 implies reachable(
            h0,
            b0,
            ct,
            roots,
            tiles[j],
        ) by {
            if tiles[j] != ta {
                lemma_tiles_disjoint(h0, used, tiles, ta, tiles[j], ta + 1);
                assert(cur2[tiles[j]] == cur[tiles[j]]);
            } else {
                assert(cur2[ta] == cur[ta]);
            }
        }
        assert(self.mark_inv(h0, ct, roots));
        // progress
        assert forall|j: int| 0 <= j < tiles.len() && hdr_state(cur2[#[trigger] tiles[j]]) == 0 implies hdr_state(cur[tiles[j]]) == 0 by {
            let t = tiles[j];
            if t != ta {
                lemma_tiles_disjoint(h0, used, tiles, ta, t, ta + 1);
            }
        }
        lemma_unmarked_count(cur, cur2, tiles, tiles.len() as int, ta);
        assert forall|t: int| #[trigger] visited.forward@.dom().contains(t) implies self.forward@.dom().contains(t)
            && self.forward@[t] == visited.forward@[t] by {
        }
        assert forall|t: int| visited.tiles@.contains(t) implies #[trigger] self.marked(t) == visited.marked(t) by {
            if t != ta {
                lemma_tiles_disjoint(h0, used, tiles, ta, t, ta + 1);
            }
            assert(cur2[t] == cur[t]);
        }
    }
}


/// Recording one more copy, made at the end of the copies, keeps the record of the
/// copies accurate.
#[verifier::rlimit(40)]
proof fn lemma_copy_record(
    oth0: Seq<u64>,
    oth1: Seq<u64>,
    h0: Seq<u64>,
    s0: Seq<int>,
    f0: Map<int, int>,
    tiles: Seq<int>,
    ta: int,
    c: int,
)
    requires
        forall|t: int| #[trigger] f0.dom().contains(t) <==> s0.contains(t),
        s0.no_duplicates(),
        forall|i: int|
            0 <= i < s0.len() ==> tiles.contains(#[trigger] s0[i]) && f0[s0[i]] == copies_total(
                h0,
                s0,
                i,
            ) && copy_ok(oth0, h0, copies_total(h0, s0, i), s0[i]),
        c == copies_total(h0, s0, s0.len() as int),
        !f0.dom().contains(ta),
        tiles.contains(ta),
        forall|t: int| #[trigger] tiles.contains(t) ==> tile_words(h0, t) >= 2,
        oth1.len() == oth0.len(),
        forall|m: int| 0 <= m < c ==> oth1[m] == oth0[m],
        oth1[c] == hdr_with_state(h0[ta], 2),
        forall|k: int| 1 <= k < tile_words(h0, ta) ==> #[trigger] oth1[c + k] == h0[ta + k],
    ensures
        forall|t: int| #[trigger] f0.insert(ta, c).dom().contains(t) <==> s0.push(ta).contains(t),
        s0.push(ta).no_duplicates(),
        forall|i: int|
            0 <= i < s0.push(ta).len() ==> tiles.contains(#[trigger] s0.push(ta)[i]) && f0.insert(
                ta,
                c,
            )[s0.push(ta)[i]] == copies_total(h0, s0.push(ta), i) && copy_ok(
                oth1,
                h0,
                copies_total(h0, s0.push(ta), i),
                s0.push(ta)[i],
            ),
        copies_total(h0, s0.push(ta), s0.len() + 1int) == c + tile_words(h0, ta),
{
    let s1 = s0.push(ta);
    let f1 = f0.insert(ta, c);
    assert forall|t: int| #[trigger] f1.dom().contains(t) <==> s1.contains(t) by {
        if s1.contains(t) && t != ta {
            let i = choose|i: int| 0 <= i < s1.len() && s1[i] == t;
            assert(s0[i] == t);
        }
        if s0.contains(t) {
            let i = choose|i: int| 0 <= i < s0.len() && s0[i] == t;
            assert(s1[i] == t);
        }
        if t == ta {
            assert(s1[s0.len() as int] == ta);
        }
    }
    assert(s1.no_duplicates()) by {
        assert forall|i: int, j: int| 0 <= i < j < s1.len() implies s1[i] != s1[j] by {
            if j == s0.len() {
                assert(s0.contains(s0[i]));
                assert(f0.dom().contains(s0[i]));
            }
        }
    }
    lemma_copies_total_prefix(h0, s0, ta, s0.len() as int);
    assert(copies_total(h0, s1, s1.len() as int) == c + tile_words(h0, ta)) by {
        assert(s1[s0.len() as int] == ta);
        lemma_copies_total_step(h0, s1, s0.len() as int);
    }
    assert forall|i: int| 0 <= i < s1.len() implies tiles.contains(#[trigger] s1[i]) && f1[s1[i]]
        == copies_total(h0, s1, i) && copy_ok(oth1, h0, copies_total(h0, s1, i), s1[i]) by {
        lemma_copies_total_prefix(h0, s0, ta, i);
        if i < s0.len() {
            assert(s1[i] == s0[i]);
            assert(s0[i] != ta) by {
                assert(s0.contains(s0[i]));
            }
            let ci = copies_total(h0, s0, i);
            lemma_copies_total_mono(h0, s0, i + 1, s0.len() as int);
            lemma_copies_total_mono(h0, s0, 0, i);
            lemma_copies_total_step(h0, s0, i);
            assert(copy_ok(oth0, h0, ci, s0[i]));
            assert forall|k: int| 1 <= k < tile_words(h0, s0[i]) implies #[trigger] oth1[ci + k]
                == h0[s0[i] + k] by {
                assert(oth1[ci + k] == oth0[ci + k]);
            }
            assert(oth1[ci] == oth0[ci]);
        } else {
            assert(s1[i] == ta);
        }
    }
}

impl ObjectAllocator {
    /// Marks the allocation at word `ta`, which was not marked.
    fn mark_tile(
        &mut self,
        ta: usize,
        Ghost(h0): Ghost<Seq<u64>>,
        Ghost(ct): Ghost<Seq<Class>>,
        Ghost(roots): Ghost<Set<int>>,
        Ghost(depth): Ghost<nat>,
    )
        requires
            old(self).mark_inv(h0, ct, roots),
            old(self).tiles@.contains(ta as int),
            !old(self).marked(ta as int),
            reach(h0, old(self).current.base as int, ct, roots, depth).contains(ta as int),
        ensures
            final(self).mark_inv(h0, ct, roots),
            old(self).gc_progress(*final(self)),
            final(self).count() < old(self).count(),
            final(self).marked(ta as int),
            final(self).forward@ == old(self).forward@,
            forall|t: int| old(self).tiles@.contains(t) && t != ta ==> #[trigger] final(self).marked(t) == old(self).marked(t),
    {
        proof {
            self.lemma_inv_tile(h0, ct, roots, ta as int);
        }
        let header = AllocHeader(self.current.read_word(ta));
        self.current.write_word(ta, header.with_state(GcState::Marked).0);
        proof {
            self.lemma_after_mark(*old(self), h0, ct, roots, depth, ta as int);
        }
    }

    /// Copies the visited allocation at word `ta` to the other region, and leaves the
    /// address of the copy in its second word.
    fn copy_tile(
        &mut self,
        ta: usize,
        Ghost(h0): Ghost<Seq<u64>>,
        Ghost(ct): Ghost<Seq<Class>>,
        Ghost(roots): Ghost<Set<int>>,
    )
        requires
            old(self).mark_inv(h0, ct, roots),
            old(self).tiles@.contains(ta as int),
            old(self).marked(ta as int),
            !old(self).forward@.dom().contains(ta as int),
            forall|c: int| #[trigger] is_child(h0, old(self).current.base as int, ct, ta as int, c) ==> old(self).marked(c),
        ensures
            final(self).mark_inv(h0, ct, roots),
            old(self).gc_progress(*final(self)),
            final(self).forward@.dom() == old(self).forward@.dom().insert(ta as int),
            forall|t: int| old(self).tiles@.contains(t) ==> #[trigger] final(self).marked(t) == old(self).marked(t),
    {
        let ghost visited = *self;
        proof {
            self.lemma_inv_tile(h0, ct, roots, ta as int);
            self.lemma_copy_room(h0, ct, roots, ta as int);
        }
        let size = AllocHeader(self.current.read_word(ta)).size();
        let alloc_entry = self.other.allocate_entry(size).expect(
            "should have enough space in the other region",
        );
        let c = (alloc_entry.ptr - self.other.base) / 8;
        let n = size / 8;
        let mut k: usize = 0;
        while k < n
            invariant
                self.other.wf(),
                self.other.base == visited.other.base,
                self.other.memory@.len() == visited.other.memory@.len(),
                c == visited.other.used_words(),
                n == tile_words(h0, ta as int),
                c + n <= self.other.memory@.len(),
                ta + n <= self.current.memory@.len(),
                self.current == visited.current,
                k <= n,
                forall|m: int| 0 <= m < c ==> self.other.memory@[m] == visited.other.memory@[m],
                self.other.memory@.subrange(c as int, c + k) == self.current.memory@.subrange(
                    ta as int,
                    ta + k,
                ),
                self.other.used_words() == c + n,
                self.other.capacity == visited.other.capacity,
                visited.current.wf(),
                self.tiles == visited.tiles,
                self.sources == visited.sources,
                self.forward == visited.forward,
            decreases n - k,
        {
            let w = self.current.read_word(ta + k);
            let ghost prev = self.other.memory@;
            self.other.write_word(c + k, w);
            proof {
                assert(self.other.memory@.subrange(c as int, c + k + 1) =~= prev.subrange(
                    c as int,
                    c + k,
                ).push(w));
                assert(self.current.memory@.subrange(ta as int, ta + k + 1) =~= self.current.memory@.subrange(
                    ta as int,
                    ta + k,
                ).push(w));
            }
            k = k + 1;
        }
        // Replace the second word of the object with the address of its copy
        self.current.write_word(ta + 1, alloc_entry.ptr as u64);
        self.sources = Ghost(self.sources@.push(ta as int));
        self.forward = Ghost(self.forward@.insert(ta as int, c as int));
        proof {
            self.lemma_after_copy(visited, h0, ct, roots, ta as int, c as int);
            assert(self.forward@.dom() =~= visited.forward@.dom().insert(ta as int));
        }
    }

    /// Marks the allocation at `object_ptr` and, if it was not marked yet, visits its
    /// fields or entries and copies it to the other region.
    fn visit(
        &mut self,
        object_ptr: usize,
        classes: &ClassManager,
        Ghost(h0): Ghost<Seq<u64>>,
        Ghost(roots): Ghost<Set<int>>,
        Ghost(depth): Ghost<nat>,
    ) -> (res: Result<(), VmError>)
        requires
            old(self).mark_inv(h0, classes.table(), roots),
            classes.wf(),
            no_reachable_nested_arrays(h0, old(self).current.base as int, old(self).tiles@, classes.table(), roots),
            object_ptr >= old(self).current.base,
            (object_ptr - old(self).current.base) % 8 == 0,
            old(self).tiles@.contains((object_ptr - old(self).current.base) / 8),
            reach(h0, old(self).current.base as int, classes.table(), roots, depth).contains(
                (object_ptr - old(self).current.base) / 8,
            ),
        ensures
            res is Ok,
            final(self).mark_inv(h0, classes.table(), roots),
            old(self).gc_progress(*final(self)),
            old(self).visit_effect(*final(self)),
            final(self).marked((object_ptr - old(self).current.base) / 8),
            old(self).marked((object_ptr - old(self).current.base) / 8) ==> *final(self) == *old(self),
            forall|t: int|
                old(self).tiles@.contains(t) && #[trigger] final(self).forward@.dom().contains(t)
                    && !old(self).forward@.dom().contains(t) ==> old(self).reached_unmarked(
                    h0,
                    classes.table(),
                    (object_ptr - old(self).current.base) / 8,
                    t,
                ),
            forall|t: int|
                #[trigger] old(self).reached_unmarked(h0, classes.table(), (object_ptr - old(self).current.base) / 8, t)
                    ==> final(self).forward@.dom().contains(t),
            final(self).other.used_words() == old(self).other.used_words() + sum_copied(
                h0,
                old(self).tiles@,
                Set::new(|t: int| old(self).reached_unmarked(h0, classes.table(), (object_ptr - old(self).current.base) / 8, t)),
                old(self).tiles@.len() as int,
            ),
        decreases old(self).count(), 0nat,
    {
        let ghost ct = classes.table();
        let ta = (object_ptr - self.current.base) / 8;
        proof {
            self.lemma_inv_tile(h0, ct, roots, ta as int);
        }
        let header = AllocHeader(self.current.read_word(ta));
        match header.state() {
            GcState::Unmarked => {
                let ghost before = *self;
                // Set as marked, to avoid visiting it again when references form a cycle
                self.mark_tile(ta, Ghost(h0), Ghost(ct), Ghost(roots), Ghost(depth));
                let ghost marked_state = *self;
                // Visit members (object fields or array entries)
                if header.kind().into_bits() == 0 {
                    self.visit_fields_of_object(ta, classes, Ghost(h0), Ghost(roots), Ghost(depth))?;
                } else {
                    self.visit_entries_of_array(ta, classes, Ghost(h0), Ghost(roots), Ghost(depth))?;
                }
                let ghost visited = *self;
                // Copy to the other region as-is, with its references to the current region
                self.copy_tile(ta, Ghost(h0), Ghost(ct), Ghost(roots));
                proof {
                    before.lemma_gc_progress_trans(marked_state, visited);
                    before.lemma_gc_progress_trans(visited, *self);
                    assert(self.marked(ta as int));
                    assert forall|t: int|
                        before.tiles@.contains(t) && #[trigger] self.marked(t) && !before.marked(t)
                            implies self.forward@.dom().contains(t) by {
                        if t != ta {
                            assert(visited.marked(t));
                            assert(visited.forward@.dom().contains(t));
                        }
                    }
                    assert forall|t: int|
                        before.tiles@.contains(t) && #[trigger] self.forward@.dom().contains(t)
                            && !before.forward@.dom().contains(t) implies !before.marked(t) by {
                        if t != ta {
                            assert(visited.forward@.dom().contains(t));
                            assert(!marked_state.marked(t));
                        }
                    }
                    assert(before.unmarked_reach(h0, ct, ta as int, 0).contains(ta as int));
                    assert forall|t: int|
                        before.tiles@.contains(t) && #[trigger] self.forward@.dom().contains(t)
                            && !before.forward@.dom().contains(t) implies before.reached_unmarked(h0, ct, ta as int, t) by {
                        if t != ta {
                            assert(visited.forward@.dom().contains(t));
                            assert(!marked_state.forward@.dom().contains(t));
                            assert(marked_state.reached_from_children(h0, ct, ta as int, t));
                            let (c, n) = choose|c: int, n: nat|
                                is_child(h0, marked_state.current.base as int, ct, ta as int, c)
                                    && #[trigger] marked_state.unmarked_reach(h0, ct, c, n).contains(t);
                            before.lemma_unmarked_reach_child(marked_state, h0, ct, ta as int, c, n);
                            assert(before.unmarked_reach(h0, ct, ta as int, n + 1).contains(t));
                        }
                    }
                    assert forall|t: int| #[trigger] before.reached_unmarked(h0, ct, ta as int, t)
                        implies self.forward@.dom().contains(t) by {
                        let n = choose|n: nat| #[trigger] before.unmarked_reach(h0, ct, ta as int, n).contains(t);
                        before.lemma_unmarked_reach_copied(*self, h0, ct, roots, ta as int, n);
                    }
                }
            },
            _ => {
                // Already visited
                proof {
                    self.lemma_gc_progress_refl();
                    assert forall|t: int| #[trigger] self.reached_unmarked(h0, ct, ta as int, t)
                        implies self.forward@.dom().contains(t) by {
                        let n = choose|n: nat| #[trigger] self.unmarked_reach(h0, ct, ta as int, n).contains(t);
                        self.lemma_unmarked_reach_marked(h0, ct, ta as int, n);
                    }
                }
            },
        }
        proof {
            old(self).lemma_visit_growth(*self, h0, ct, roots, ta as int);
        }
        Ok(())
    }
}

impl ObjectAllocator {
    /// After a visit of the allocation at `ta`, the allocation is still marked and not
    /// copied yet.
    proof fn lemma_still_pending(&self, before: Self, after: Self, ta: int)
        requires
            before.gc_progress(after),
            before.visit_effect(after),
            before.tiles@.contains(ta),
            before.marked(ta),
            !before.forward@.dom().contains(ta),
        ensures
            after.marked(ta),
            !after.forward@.dom().contains(ta),
    {
    }

    /// Visits the objects referenced by the fields of the object at word `ta`.
    fn visit_fields_of_object(
        &mut self,
        ta: usize,
        classes: &ClassManager,
        Ghost(h0): Ghost<Seq<u64>>,
        Ghost(roots): Ghost<Set<int>>,
        Ghost(depth): Ghost<nat>,
    ) -> (res: Result<(), VmError>)
        requires
            old(self).mark_inv(h0, classes.table(), roots),
            classes.wf(),
            no_reachable_nested_arrays(h0, old(self).current.base as int, old(self).tiles@, classes.table(), roots),
            old(self).tiles@.contains(ta as int),
            old(self).marked(ta as int),
            !old(self).forward@.dom().contains(ta as int),
            hdr_kind(h0[ta as int]) == 0,
            reach(h0, old(self).current.base as int, classes.table(), roots, depth).contains(ta as int),
        ensures
            res is Ok,
            final(self).mark_inv(h0, classes.table(), roots),
            old(self).gc_progress(*final(self)),
            old(self).visit_effect(*final(self)),
            final(self).marked(ta as int),
            !final(self).forward@.dom().contains(ta as int),
            forall|c: int| #[trigger] is_child(h0, old(self).current.base as int, classes.table(), ta as int, c) ==> final(self).marked(c),
            forall|t: int|
                old(self).tiles@.contains(t) && #[trigger] final(self).forward@.dom().contains(t)
                    && !old(self).forward@.dom().contains(t) ==> old(self).reached_from_children(
                    h0,
                    classes.table(),
                    ta as int,
                    t,
                ),
        decreases old(self).count(), 1nat,
    {
        let ghost ct = classes.table();
        let ghost b0 = self.current.base as int;
        let ghost tiles = self.tiles@;
        proof {
            classes.lemma_wf();
            self.lemma_inv_tile(h0, ct, roots, ta as int);
            self.lemma_gc_progress_refl();
        }
        let class_id = ClassId::new(self.current.read_word(ta + 1) as u32);
        if classes.find_class_by_id(class_id).is_none() {
            return Err(VmError::ValidationException);
        }
        let fields = classes.all_fields(class_id);
        proof {
            assert forall|i: int| 0 <= i < fields@.len() implies #[trigger] fields@[i].type_descriptor.is_reference()
                == slot_is_ref(h0, ta as int, ct, i) by {
                assert(*fields@[i] == all_fields(ct, class_id@ as int)[i]);
            }
            lemma_field_at_all_fields(ct, class_id@ as int, 0);
        }
        let mut index: usize = 0;
        while index < fields.len()
            invariant
                self.mark_inv(h0, ct, roots),
                classes.wf(),
                ct == classes.table(),
                no_reachable_nested_arrays(h0, b0, tiles, ct, roots),
                old(self).gc_progress(*self),
                old(self).visit_effect(*self),
                old(self).tiles@ == tiles,
                old(self).current.base == b0,
                tiles.contains(ta as int),
                old(self).marked(ta as int),
                !old(self).forward@.dom().contains(ta as int),
                reach(h0, b0, ct, roots, depth).contains(ta as int),
                tile_ok(h0, b0, tiles, ct, 0, ta as int),
                hdr_kind(h0[ta as int]) == 0,
                fields@.len() == slot_count(h0, ta as int, ct),
                forall|i: int| 0 <= i < fields@.len() ==> #[trigger] fields@[i].type_descriptor.is_reference() == slot_is_ref(h0, ta as int, ct, i),
                index <= fields@.len(),
                forall|i: int|
                    0 <= i < index && slot_is_ref(h0, ta as int, ct, i) && h0[slot_index(h0, ta as int, i)] != 0
                        ==> self.marked(#[trigger] target(b0, h0[slot_index(h0, ta as int, i)])),
                forall|t: int|
                    tiles.contains(t) && #[trigger] self.forward@.dom().contains(t)
                        && !old(self).forward@.dom().contains(t) ==> old(self).reached_from_children(h0, ct, ta as int, t),
            decreases fields@.len() - index,
        {
            let ghost iter_start = *self;
            if fields[index].type_descriptor.is_reference_type() {
                proof {
                    self.lemma_inv_tile(h0, ct, roots, ta as int);
                    assert(slot_index(h0, ta as int, index as int) == ta + 2 + index);
                    assert(self.current.memory@[ta + 2 + index] == h0[ta + 2 + index]);
                }
                let field_value = self.current.read_word(ta + 2 + index);
                if field_value != 0 {
                    proof {
                        assert(ref_ok(b0, tiles, h0[slot_index(h0, ta as int, index as int)]));
                        self.lemma_inv_tile(h0, ct, roots, target(b0, field_value));
                        assert(field_value as usize == field_value);
                        assert(is_child(h0, b0, ct, ta as int, target(b0, field_value)));
                        lemma_reach_child(h0, b0, ct, roots, depth, ta as int, target(b0, field_value));
                    }
                    self.visit(field_value as usize, classes, Ghost(h0), Ghost(roots), Ghost(depth + 1))?;
                    proof {
                        old(self).lemma_gc_progress_trans(iter_start, *self);
                        let child = target(b0, field_value);
                        assert forall|t: int|
                            tiles.contains(t) && #[trigger] self.forward@.dom().contains(t)
                                && !old(self).forward@.dom().contains(t) implies old(self).reached_from_children(h0, ct, ta as int, t) by {
                            if !iter_start.forward@.dom().contains(t) {
                                let n = choose|n: nat| #[trigger] iter_start.unmarked_reach(h0, ct, child, n).contains(t);
                                old(self).lemma_unmarked_reach_mono(iter_start, h0, ct, child, n);
                                assert(old(self).unmarked_reach(h0, ct, child, n).contains(t));
                            }
                        }
                        assert forall|i: int|
                            0 <= i < index && slot_is_ref(h0, ta as int, ct, i) && h0[slot_index(h0, ta as int, i)] != 0
                                implies self.marked(#[trigger] target(b0, h0[slot_index(h0, ta as int, i)])) by {
                            assert(ref_ok(b0, tiles, h0[slot_index(h0, ta as int, i)]));
                            assert(iter_start.marked(target(b0, h0[slot_index(h0, ta as int, i)])));
                        }
                    }
                }
            }
            index = index + 1;
        }
        proof {
            self.lemma_still_pending(*old(self), *self, ta as int);
            assert forall|c: int| #[trigger] is_child(h0, b0, ct, ta as int, c) implies self.marked(c) by {
                let i = choose|i: int|
                    0 <= i < slot_count(h0, ta as int, ct) && slot_is_ref(h0, ta as int, ct, i)
                        && h0[slot_index(h0, ta as int, i)] != 0 && c == #[trigger] target(b0, h0[slot_index(h0, ta as int, i)]);
            }
        }
        Ok(())
    }

    /// Visits the objects referenced by the entries of the array at word `ta`.
    fn visit_entries_of_array(
        &mut self,
        ta: usize,
        classes: &ClassManager,
        Ghost(h0): Ghost<Seq<u64>>,
        Ghost(roots): Ghost<Set<int>>,
        Ghost(depth): Ghost<nat>,
    ) -> (res: Result<(), VmError>)
        requires
            old(self).mark_inv(h0, classes.table(), roots),
            classes.wf(),
            no_reachable_nested_arrays(h0, old(self).current.base as int, old(self).tiles@, classes.table(), roots),
            old(self).tiles@.contains(ta as int),
            old(self).marked(ta as int),
            !old(self).forward@.dom().contains(ta as int),
            hdr_kind(h0[ta as int]) == 1,
            reach(h0, old(self).current.base as int, classes.table(), roots, depth).contains(ta as int),
        ensures
            res is Ok,
            final(self).mark_inv(h0, classes.table(), roots),
            old(self).gc_progress(*final(self)),
            old(self).visit_effect(*final(self)),
            final(self).marked(ta as int),
            !final(self).forward@.dom().contains(ta as int),
            forall|c: int| #[trigger] is_child(h0, old(self).current.base as int, classes.table(), ta as int, c) ==> final(self).marked(c),
            forall|t: int|
                old(self).tiles@.contains(t) && #[trigger] final(self).forward@.dom().contains(t)
                    && !old(self).forward@.dom().contains(t) ==> old(self).reached_from_children(
                    h0,
                    classes.table(),
                    ta as int,
                    t,
                ),
        decreases old(self).count(), 1nat,
    {
        let ghost ct = classes.table();
        let ghost b0 = self.current.base as int;
        let ghost tiles = self.tiles@;
        proof {
            self.lemma_inv_tile(h0, ct, roots, ta as int);
            self.lemma_gc_progress_refl();
            assert(self.current.memory@[ta + 2] == h0[ta + 2]);
            assert(reachable(h0, b0, ct, roots, ta as int));
        }
        let entry_type = ArrayEntryType::decode(self.current.read_word(ta + 1));
        match entry_type {
            ArrayEntryType::Base(_) => {
                // No objects are kept alive by this array
                Ok(())
            },
            ArrayEntryType::Object(_) => {
                let len = self.current.read_word(ta + 2) as usize;
                let mut i: usize = 0;
                while i < len
                    invariant
                        self.mark_inv(h0, ct, roots),
                        classes.wf(),
                        ct == classes.table(),
                        no_reachable_nested_arrays(h0, b0, tiles, ct, roots),
                        old(self).gc_progress(*self),
                        old(self).visit_effect(*self),
                        old(self).tiles@ == tiles,
                        old(self).current.base == b0,
                        tiles.contains(ta as int),
                        old(self).marked(ta as int),
                        !old(self).forward@.dom().contains(ta as int),
                        reach(h0, b0, ct, roots, depth).contains(ta as int),
                        tile_ok(h0, b0, tiles, ct, 0, ta as int),
                        hdr_kind(h0[ta as int]) == 1,
                        entry_type_word_is_reference(h0[ta + 1]),
                        entry_type == decode_entry_type(h0[ta + 1]),
                        entry_type is Object,
                        len == h0[ta + 2],
                        i <= len,
                        forall|k: int|
                            0 <= k < i && h0[slot_index(h0, ta as int, k)] != 0
                                ==> self.marked(#[trigger] target(b0, h0[slot_index(h0, ta as int, k)])),
                        forall|t: int|
                            tiles.contains(t) && #[trigger] self.forward@.dom().contains(t)
                                && !old(self).forward@.dom().contains(t) ==> old(self).reached_from_children(h0, ct, ta as int, t),
                    decreases len - i,
                {
                    let ghost iter_start = *self;
                    proof {
                        self.lemma_inv_tile(h0, ct, roots, ta as int);
                        assert(slot_index(h0, ta as int, i as int) == ta + 3 + i);
                        assert(self.current.memory@[ta + 3 + i] == h0[ta + 3 + i]);
                    }
                    let value = read_value2(self.current.read_word(ta + 3 + i), &entry_type);
                    match value {
                        Value::Object(array_element) => {
                            let element = array_element.addr();
                            proof {
                                let w = h0[slot_index(h0, ta as int, i as int)];
                                assert(ref_ok(b0, tiles, w));
                                self.lemma_inv_tile(h0, ct, roots, target(b0, w));
                                assert(w as usize == w);
                                AbstractObject::lemma_spec_at(array_element);
                                assert(is_child(h0, b0, ct, ta as int, target(b0, element as u64)));
                                lemma_reach_child(h0, b0, ct, roots, depth, ta as int, target(b0, element as u64));
                            }
                            self.visit(element, classes, Ghost(h0), Ghost(roots), Ghost(depth + 1))?;
                            proof {
                                old(self).lemma_gc_progress_trans(iter_start, *self);
                                let child = target(b0, element as u64);
                                assert forall|t: int|
                                    tiles.contains(t) && #[trigger] self.forward@.dom().contains(t)
                                        && !old(self).forward@.dom().contains(t) implies old(self).reached_from_children(h0, ct, ta as int, t) by {
                                    if !iter_start.forward@.dom().contains(t) {
                                        let n = choose|n: nat| #[trigger] iter_start.unmarked_reach(h0, ct, child, n).contains(t);
                                        old(self).lemma_unmarked_reach_mono(iter_start, h0, ct, child, n);
                                        assert(old(self).unmarked_reach(h0, ct, child, n).contains(t));
                                    }
                                }
                                assert forall|k: int|
                                    0 <= k < i && h0[slot_index(h0, ta as int, k)] != 0
                                        implies self.marked(#[trigger] target(b0, h0[slot_index(h0, ta as int, k)])) by {
                                    assert(ref_ok(b0, tiles, h0[slot_index(h0, ta as int, k)]));
                                    assert(iter_start.marked(target(b0, h0[slot_index(h0, ta as int, k)])));
                                }
                            }
                        },
                        Value::Null => {
                            // Nothing to visit
                        },
                        _ => {
                            return Err(VmError::ValidationException);
                        },
                    }
                    i = i + 1;
                }
                proof {
                    self.lemma_still_pending(*old(self), *self, ta as int);
                    assert forall|c: int| #[trigger] is_child(h0, b0, ct, ta as int, c) implies self.marked(c) by {
                        let k = choose|k: int|
                            0 <= k < slot_count(h0, ta as int, ct) && slot_is_ref(h0, ta as int, ct, k)
                                && h0[slot_index(h0, ta as int, k)] != 0 && c == #[trigger] target(b0, h0[slot_index(h0, ta as int, k)]);
                    }
                }
                Ok(())
            },
            ArrayEntryType::Array => {
                // Arrays of arrays are not supported, and never reachable here
                proof {
                    assert(tiles.contains(ta as int));
                    assert(false);
                }
                Ok(())
            },
        }
    }
}


/// Where the copy of the allocation that the non-null reference `v` points at went.
pub open spec fn forwarded(b0: int, b1: int, forward: Map<int, int>) -> spec_fn(u64) -> u64 {
    |v: u64| (b1 + 8 * forward[target(b0, v)]) as u64
}

/// Whether the words at `c` of the other region are the copy of the allocation at `s` in
/// `h0`, unmarked, with its references moved to the copies.
pub open spec fn fixed_copy(
    oth: Seq<u64>,
    h0: Seq<u64>,
    b0: int,
    b1: int,
    forward: Map<int, int>,
    classes: Seq<Class>,
    c: int,
    s: int,
) -> bool {
    &&& oth[c] == h0[s]
    &&& forall|k: int|
        1 <= k < tile_words(h0, s) ==> #[trigger] oth[c + k] == moved_word(
            h0,
            s,
            classes,
            k,
            forwarded(b0, b1, forward),
        )
}

impl ObjectAllocator {
    /// What holds while the references of the copies are moved to the copies: the first
    /// `n` copies have been fixed, the others are as they were copied.
    #[verifier::opaque]
    spec fn fix_inv(&self, h0: Seq<u64>, classes: Seq<Class>, roots: Set<int>, n: int) -> bool {
        let cur = self.current.memory@;
        let oth = self.other.memory@;
        let b0 = self.current.base as int;
        let b1 = self.other.base as int;
        let tiles = self.tiles@;
        let forward = self.forward@;
        let sources = self.sources@;
        &&& self.current.wf()
        &&& self.other.wf()
        &&& self.current.capacity == self.other.capacity
        &&& (self.current.base + self.current.capacity + 8 <= self.other.base
            || self.other.base + self.other.capacity + 8 <= self.current.base)
        &&& table_wf(classes)
        &&& heap_ok(h0, b0, self.current.used_words(), tiles, classes, 0)
        &&& cur.len() == h0.len()
        &&& forall|j: int|
            0 <= j < tiles.len() ==> tile_state_ok(cur, h0, forward, b1, #[trigger] tiles[j])
        &&& forall|t: int| #[trigger] forward.dom().contains(t) <==> sources.contains(t)
        &&& sources.no_duplicates()
        &&& forall|i: int|
            0 <= i < sources.len() ==> tiles.contains(#[trigger] sources[i]) && forward[sources[i]]
                == copies_total(h0, sources, i)
        &&& self.other.used_words() == copies_total(h0, sources, sources.len() as int)
        &&& forall|t: int, c: int|
            #[trigger] forward.dom().contains(t) && #[trigger] is_child(h0, b0, classes, t, c)
                ==> forward.dom().contains(c)
        &&& forall|t: int|
            #[trigger] tiles.contains(t) ==> (forward.dom().contains(t) <==> reachable(
                h0,
                b0,
                classes,
                roots,
                t,
            ))
        &&& 0 <= n <= sources.len()
        &&& forall|i: int|
            0 <= i < n ==> fixed_copy(
                oth,
                h0,
                b0,
                b1,
                forward,
                classes,
                copies_total(h0, sources, i),
                #[trigger] sources[i],
            )
        &&& forall|i: int|
            n <= i < sources.len() ==> copy_ok(
                oth,
                h0,
                copies_total(h0, sources, i),
                #[trigger] sources[i],
            )
    }

    /// What the invariant of the fix tells of the copy to fix next.
    proof fn lemma_fix_facts(&self, h0: Seq<u64>, ct: Seq<Class>, roots: Set<int>, n: int)
        requires
            self.fix_inv(h0, ct, roots, n),
            n < self.sources@.len(),
        ensures
            ({
                let s = self.sources@[n];
                let c = copies_total(h0, self.sources@, n);
                &&& self.tiles@.contains(s)
                &&& self.forward@.dom().contains(s)
                &&& copy_ok(self.other.memory@, h0, c, s)
                &&& tile_ok(h0, self.current.base as int, self.tiles@, ct, 0, s)
                &&& reachable(h0, self.current.base as int, ct, roots, s)
                &&& 0 <= c
                &&& c + tile_words(h0, s) <= self.other.used_words()
                &&& self.other.used_words() <= self.other.memory@.len()
                &&& tile_words(h0, s) >= 2
                &&& hdr_size(h0[s]) == 8 * tile_words(h0, s)
                &&& hdr_state(h0[s]) == 0
                &&& s + tile_words(h0, s) <= h0.len()
            }),
            self.current.wf(),
            self.other.wf(),
            table_wf(ct),
            0 <= n,
    {
        reveal(ObjectAllocator::fix_inv);
        let s = self.sources@[n];
        let tiles = self.tiles@;
        let used = self.current.used_words();
        lemma_tiling_bounds(h0, used, tiles);
        let j = choose|j: int| 0 <= j < tiles.len() && tiles[j] == s;
        assert(tile_ok(h0, self.current.base as int, tiles, ct, 0, tiles[j]));
        assert(self.sources@.contains(s));
        lemma_copies_total_mono(h0, self.sources@, 0, n);
        lemma_copies_total_mono(h0, self.sources@, n + 1, self.sources@.len() as int);
        lemma_copies_total_step(h0, self.sources@, n);
    }

    /// What the invariant of the fix tells of a non-null reference held by the copy to
    /// fix next: where its target went.
    proof fn lemma_fix_child(&self, h0: Seq<u64>, ct: Seq<Class>, roots: Set<int>, n: int, k: int)
        requires
            self.fix_inv(h0, ct, roots, n),
            0 <= n < self.sources@.len(),
            holds_ref(h0, self.sources@[n], ct, k),
            h0[self.sources@[n] + k] != 0,
        ensures
            ({
                let v = h0[self.sources@[n] + k];
                let t = target(self.current.base as int, v);
                &&& v >= self.current.base
                &&& (v - self.current.base) % 8 == 0
                &&& 0 <= t
                &&& t + 1 < self.current.memory@.len()
                &&& self.current.memory@[t + 1] == forwarded(
                    self.current.base as int,
                    self.other.base as int,
                    self.forward@,
                )(v)
            }),
    {
        reveal(ObjectAllocator::fix_inv);
        let s = self.sources@[n];
        let b0 = self.current.base as int;
        let tiles = self.tiles@;
        let used = self.current.used_words();
        lemma_tiling_bounds(h0, used, tiles);
        let j = choose|j: int| 0 <= j < tiles.len() && tiles[j] == s;
        assert(tile_ok(h0, b0, tiles, ct, 0, tiles[j]));
        let i = k - first_slot(h0[s]);
        assert(slot_index(h0, s, i) == s + k);
        let v = h0[s + k];
        assert(ref_ok(b0, tiles, h0[slot_index(h0, s, i)]));
        let t = target(b0, v);
        assert(is_child(h0, b0, ct, s, t));
        assert(self.sources@.contains(s));
        assert(self.forward@.dom().contains(t));
        let jt = choose|j: int| 0 <= j < tiles.len() && tiles[j] == t;
        assert(tile_state_ok(self.current.memory@, h0, self.forward@, self.other.base as int, tiles[jt]));
    }
}

impl ObjectAllocator {
    /// Replaces the reference in word `w` of the other region, which points at an
    /// allocation of the current region, with the address of its copy, which that
    /// allocation holds in its second word; returns the new value (0 for null).
    fn fix_reference(&mut self, w: usize) -> (res: u64)
        requires
            old(self).current.wf(),
            w < old(self).other.memory@.len(),
            ({
                let v = old(self).other.memory@[w as int];
                v != 0 ==> v >= old(self).current.base && (v - old(self).current.base) % 8 == 0 && (v
                    - old(self).current.base) / 8 + 1 < old(self).current.memory@.len()
            }),
        ensures
            final(self).current == old(self).current,
            final(self).tiles == old(self).tiles,
            final(self).sources == old(self).sources,
            final(self).forward == old(self).forward,
            final(self).other.base == old(self).other.base,
            final(self).other.used == old(self).other.used,
            final(self).other.capacity == old(self).other.capacity,
            old(self).other.memory@[w as int] == 0 ==> res == 0 && final(self).other.memory@ == old(
                self,
            ).other.memory@,
            old(self).other.memory@[w as int] != 0 ==> res == old(self).current.memory@[(old(
                self,
            ).other.memory@[w as int] - old(self).current.base) / 8 + 1] && final(self).other.memory@
                == old(self).other.memory@.update(w as int, res),
    {
        let v = self.other.read_word(w);
        if v == 0 {
            // Skipping nulls
            return 0;
        }
        // The new address is stored in the word after the header of the old allocation
        let t = ((v as usize) - self.current.base) / 8;
        let new_address = self.current.read_word(t + 1);
        self.other.write_word(w, new_address);
        new_address
    }
}
impl ObjectAllocator {
    /// Moves the references held by the fields of the copy of an object at word `c` of
    /// the other region, the copy number `n`.
    fn fix_references_in_object(
        &mut self,
        c: usize,
        classes: &ClassManager,
        Ghost(h0): Ghost<Seq<u64>>,
        Ghost(roots): Ghost<Set<int>>,
        Ghost(n): Ghost<int>,
    ) -> (res: Result<(), VmError>)
        requires
            old(self).fix_inv(h0, classes.table(), roots, n),
            classes.wf(),
            0 <= n < old(self).sources@.len(),
            c == copies_total(h0, old(self).sources@, n),
            hdr_kind(h0[old(self).sources@[n]]) == 0,
        ensures
            res is Ok,
            final(self).current == old(self).current,
            final(self).tiles == old(self).tiles,
            final(self).sources == old(self).sources,
            final(self).forward == old(self).forward,
            final(self).other.base == old(self).other.base,
            final(self).other.used == old(self).other.used,
            final(self).other.capacity == old(self).other.capacity,
            final(self).other.memory@.len() == old(self).other.memory@.len(),
            forall|m: int|
                0 <= m < old(self).other.memory@.len() && !(c + 2 <= m < c + tile_words(
                    h0,
                    old(self).sources@[n],
                )) ==> #[trigger] final(self).other.memory@[m] == old(self).other.memory@[m],
            forall|k: int|
                2 <= k < tile_words(h0, old(self).sources@[n]) ==> #[trigger] final(self).other.memory@[c
                    + k] == moved_word(
                    h0,
                    old(self).sources@[n],
                    classes.table(),
                    k,
                    forwarded(
                        old(self).current.base as int,
                        old(self).other.base as int,
                        old(self).forward@,
                    ),
                ),
    {
        let ghost ct = classes.table();
        let ghost s = self.sources@[n];
        let ghost oth0 = self.other.memory@;
        let ghost fw = forwarded(self.current.base as int, self.other.base as int, self.forward@);
        proof {
            self.lemma_fix_facts(h0, ct, roots, n);
            classes.lemma_wf();
            assert(self.other.memory@[c + 1] == h0[s + 1]);
        }
        let class_id = ClassId::new(self.other.read_word(c + 1) as u32);
        if classes.find_class_by_id(class_id).is_none() {
            return Err(VmError::ValidationException);
        }
        let fields = classes.all_fields(class_id);
        proof {
            assert forall|i: int| 0 <= i < fields@.len() implies #[trigger] fields@[i].type_descriptor.is_reference()
                == slot_is_ref(h0, s, ct, i) by {
                assert(*fields@[i] == all_fields(ct, class_id@ as int)[i]);
            }
            lemma_field_at_all_fields(ct, class_id@ as int, 0);
        }
        let mut index: usize = 0;
        while index < fields.len()
            invariant
                old(self).fix_inv(h0, ct, roots, n),
                0 <= n < old(self).sources@.len(),
                s == old(self).sources@[n],
                c == copies_total(h0, old(self).sources@, n),
                copy_ok(oth0, h0, c as int, s),
                oth0 == old(self).other.memory@,
                fw == forwarded(old(self).current.base as int, old(self).other.base as int, old(self).forward@),
                self.current == old(self).current,
                self.tiles == old(self).tiles,
                self.sources == old(self).sources,
                self.forward == old(self).forward,
                self.other.base == old(self).other.base,
                self.other.used == old(self).other.used,
                self.other.capacity == old(self).other.capacity,
                self.other.memory@.len() == oth0.len(),
                c + tile_words(h0, s) <= oth0.len(),
                old(self).other.wf(),
                old(self).current.wf(),
                hdr_kind(h0[s]) == 0,
                tile_words(h0, s) == 2 + fields@.len(),
                fields@.len() == slot_count(h0, s, ct),
                forall|i: int| 0 <= i < fields@.len() ==> #[trigger] fields@[i].type_descriptor.is_reference() == slot_is_ref(h0, s, ct, i),
                index <= fields@.len(),
                forall|m: int|
                    0 <= m < oth0.len() && !(c + 2 <= m < c + 2 + index) ==> #[trigger] self.other.memory@[m] == oth0[m],
                forall|k: int| 2 <= k < 2 + index ==> #[trigger] self.other.memory@[c + k] == moved_word(h0, s, ct, k, fw),
            decreases fields@.len() - index,
        {
            let ghost before = self.other.memory@;
            proof {
                assert(self.other.memory@[c + 2 + index] == oth0[c + 2 + index]);
                assert(oth0[c + (2 + index)] == h0[s + (2 + index)]);
            }
            if fields[index].type_descriptor.is_reference_type() {
                proof {
                    if h0[s + 2 + index] != 0 {
                        old(self).lemma_fix_child(h0, ct, roots, n, 2 + index);
                    }
                }
                self.fix_reference(c + 2 + index);
            }
            proof {
                assert forall|m: int|
                    0 <= m < oth0.len() && !(c + 2 <= m < c + 2 + index + 1) implies #[trigger] self.other.memory@[m] == oth0[m] by {
                    assert(self.other.memory@[m] == before[m]);
                }
                assert forall|k: int| 2 <= k < 2 + index + 1 implies #[trigger] self.other.memory@[c + k] == moved_word(h0, s, ct, k, fw) by {
                    if k < 2 + index {
                        assert(self.other.memory@[c + k] == before[c + k]);
                    }
                }
            }
            index = index + 1;
        }
        Ok(())
    }

    /// Moves the references held by the entries of the copy of an array at word `c` of
    /// the other region, the copy number `n`.
    fn fix_references_in_array(
        &mut self,
        c: usize,
        Ghost(h0): Ghost<Seq<u64>>,
        Ghost(ct): Ghost<Seq<Class>>,
        Ghost(roots): Ghost<Set<int>>,
        Ghost(n): Ghost<int>,
    ) -> (res: Result<(), VmError>)
        requires
            old(self).fix_inv(h0, ct, roots, n),
            no_reachable_nested_arrays(h0, old(self).current.base as int, old(self).tiles@, ct, roots),
            0 <= n < old(self).sources@.len(),
            c == copies_total(h0, old(self).sources@, n),
            hdr_kind(h0[old(self).sources@[n]]) == 1,
        ensures
            res is Ok,
            final(self).current == old(self).current,
            final(self).tiles == old(self).tiles,
            final(self).sources == old(self).sources,
            final(self).forward == old(self).forward,
            final(self).other.base == old(self).other.base,
            final(self).other.used == old(self).other.used,
            final(self).other.capacity == old(self).other.capacity,
            final(self).other.memory@.len() == old(self).other.memory@.len(),
            forall|m: int|
                0 <= m < old(self).other.memory@.len() && !(c + 3 <= m < c + tile_words(
                    h0,
                    old(self).sources@[n],
                )) ==> #[trigger] final(self).other.memory@[m] == old(self).other.memory@[m],
            forall|k: int|
                3 <= k < tile_words(h0, old(self).sources@[n]) ==> #[trigger] final(self).other.memory@[c
                    + k] == moved_word(
                    h0,
                    old(self).sources@[n],
                    ct,
                    k,
                    forwarded(
                        old(self).current.base as int,
                        old(self).other.base as int,
                        old(self).forward@,
                    ),
                ),
    {
        let ghost s = self.sources@[n];
        let ghost oth0 = self.other.memory@;
        let ghost fw = forwarded(self.current.base as int, self.other.base as int, self.forward@);
        proof {
            self.lemma_fix_facts(h0, ct, roots, n);
            assert(self.other.memory@[c + 1] == h0[s + 1]);
            assert(self.other.memory@[c + 2] == h0[s + 2]);
        }
        let entry_type = ArrayEntryType::decode(self.other.read_word(c + 1));
        match entry_type {
            ArrayEntryType::Base(_) => {
                // No objects are kept alive by this array
                Ok(())
            },
            ArrayEntryType::Object(_) => {
                let len = self.other.read_word(c + 2) as usize;
                let mut i: usize = 0;
                while i < len
                    invariant
                        old(self).fix_inv(h0, ct, roots, n),
                        0 <= n < old(self).sources@.len(),
                        s == old(self).sources@[n],
                        c == copies_total(h0, old(self).sources@, n),
                        copy_ok(oth0, h0, c as int, s),
                        oth0 == old(self).other.memory@,
                        fw == forwarded(old(self).current.base as int, old(self).other.base as int, old(self).forward@),
                        self.current == old(self).current,
                        self.tiles == old(self).tiles,
                        self.sources == old(self).sources,
                        self.forward == old(self).forward,
                        self.other.base == old(self).other.base,
                        self.other.used == old(self).other.used,
                        self.other.capacity == old(self).other.capacity,
                        self.other.memory@.len() == oth0.len(),
                        c + tile_words(h0, s) <= oth0.len(),
                        old(self).other.wf(),
                        old(self).current.wf(),
                        hdr_kind(h0[s]) == 1,
                        entry_type_word_is_reference(h0[s + 1]),
                        tile_words(h0, s) == 3 + len,
                        len == h0[s + 2],
                        i <= len,
                        forall|m: int|
                            0 <= m < oth0.len() && !(c + 3 <= m < c + 3 + i) ==> #[trigger] self.other.memory@[m] == oth0[m],
                        forall|k: int| 3 <= k < 3 + i ==> #[trigger] self.other.memory@[c + k] == moved_word(h0, s, ct, k, fw),
                    decreases len - i,
                {
                    let ghost before = self.other.memory@;
                    proof {
                        assert(self.other.memory@[c + 3 + i] == oth0[c + 3 + i]);
                        assert(oth0[c + (3 + i)] == h0[s + (3 + i)]);
                        if h0[s + 3 + i] != 0 {
                            old(self).lemma_fix_child(h0, ct, roots, n, 3 + i);
                        }
                    }
                    self.fix_reference(c + 3 + i);
                    proof {
                        assert forall|m: int|
                            0 <= m < oth0.len() && !(c + 3 <= m < c + 3 + i + 1) implies #[trigger] self.other.memory@[m] == oth0[m] by {
                            assert(self.other.memory@[m] == before[m]);
                        }
                        assert forall|k: int| 3 <= k < 3 + i + 1 implies #[trigger] self.other.memory@[c + k] == moved_word(h0, s, ct, k, fw) by {
                            if k < 3 + i {
                                assert(self.other.memory@[c + k] == before[c + k]);
                            }
                        }
                    }
                    i = i + 1;
                }
                Ok(())
            },
            ArrayEntryType::Array => {
                // Arrays of arrays are not supported, and never reachable here
                proof {
                    assert(old(self).tiles@.contains(s));
                    assert(false);
                }
                Ok(())
            },
        }
    }
}

impl ObjectAllocator {
    /// Fixing the copy number `n`, which is confined to its own words, keeps the other
    /// copies as they were.
    #[verifier::rlimit(40)]
    proof fn lemma_after_fix(&self, before: Self, h0: Seq<u64>, ct: Seq<Class>, roots: Set<int>, n: int)
        requires
            before.fix_inv(h0, ct, roots, n),
            0 <= n < before.sources@.len(),
            self.current == before.current,
            self.tiles == before.tiles,
            self.sources == before.sources,
            self.forward == before.forward,
            self.other.base == before.other.base,
            self.other.used == before.other.used,
            self.other.capacity == before.other.capacity,
            self.other.memory@.len() == before.other.memory@.len(),
            ({
                let s = before.sources@[n];
                let c = copies_total(h0, before.sources@, n);
                &&& forall|m: int|
                    0 <= m < before.other.memory@.len() && !(c <= m < c + tile_words(h0, s))
                        ==> #[trigger] self.other.memory@[m] == before.other.memory@[m]
                &&& fixed_copy(
                    self.other.memory@,
                    h0,
                    self.current.base as int,
                    self.other.base as int,
                    self.forward@,
                    ct,
                    c,
                    s,
                )
            }),
        ensures
            self.fix_inv(h0, ct, roots, n + 1),
    {
        reveal(ObjectAllocator::fix_inv);
        let sources = self.sources@;
        let oth0 = before.other.memory@;
        let oth1 = self.other.memory@;
        let b0 = self.current.base as int;
        let b1 = self.other.base as int;
        let cn = copies_total(h0, sources, n);
        let tiles = self.tiles@;
        lemma_tiling_bounds(h0, self.current.used_words(), tiles);
        assert forall|i: int| 0 <= i < sources.len() implies tile_words(h0, #[trigger] sources[i]) >= 2 by {
            let j = choose|j: int| 0 <= j < tiles.len() && tiles[j] == sources[i];
        }
        lemma_copies_total_mono(h0, sources, n, sources.len() as int);
        lemma_copies_total_mono(h0, sources, 0, n);
        lemma_copies_total_step(h0, sources, n);
        assert forall|i: int| 0 <= i < n + 1 implies fixed_copy(
            oth1,
            h0,
            b0,
            b1,
            self.forward@,
            ct,
            copies_total(h0, sources, i),
            #[trigger] sources[i],
        ) by {
            if i < n {
                let ci = copies_total(h0, sources, i);
                lemma_copies_total_mono(h0, sources, i + 1, n);
                lemma_copies_total_mono(h0, sources, 0, i);
                lemma_copies_total_step(h0, sources, i);
                assert(fixed_copy(oth0, h0, b0, b1, self.forward@, ct, ci, sources[i]));
                assert forall|k: int| 1 <= k < tile_words(h0, sources[i]) implies #[trigger] oth1[ci + k]
                    == moved_word(h0, sources[i], ct, k, forwarded(b0, b1, self.forward@)) by {
                    assert(oth1[ci + k] == oth0[ci + k]);
                }
                assert(oth1[ci] == oth0[ci]);
            }
        }
        assert forall|i: int| n + 1 <= i < sources.len() implies copy_ok(
            oth1,
            h0,
            copies_total(h0, sources, i),
            #[trigger] sources[i],
        ) by {
            let ci = copies_total(h0, sources, i);
            lemma_copies_total_mono(h0, sources, n + 1, i);
            lemma_copies_total_mono(h0, sources, i + 1, sources.len() as int);
            lemma_copies_total_step(h0, sources, n);
            lemma_copies_total_step(h0, sources, i);
            assert(copy_ok(oth0, h0, ci, sources[i]));
            assert forall|k: int| 1 <= k < tile_words(h0, sources[i]) implies #[trigger] oth1[ci + k]
                == h0[sources[i] + k] by {
                assert(oth1[ci + k] == oth0[ci + k]);
            }
            assert(oth1[ci] == oth0[ci]);
        }
    }

    /// Moves the references of the copy number `n`, at word `c` of the other region, to
    /// the copies, and unmarks it.
    fn fix_copy(
        &mut self,
        c: usize,
        classes: &ClassManager,
        Ghost(h0): Ghost<Seq<u64>>,
        Ghost(roots): Ghost<Set<int>>,
        Ghost(n): Ghost<int>,
    ) -> (res: Result<(), VmError>)
        requires
            old(self).fix_inv(h0, classes.table(), roots, n),
            classes.wf(),
            no_reachable_nested_arrays(h0, old(self).current.base as int, old(self).tiles@, classes.table(), roots),
            0 <= n < old(self).sources@.len(),
            c == copies_total(h0, old(self).sources@, n),
        ensures
            res is Ok,
            final(self).fix_inv(h0, classes.table(), roots, n + 1),
            final(self).current == old(self).current,
            final(self).tiles == old(self).tiles,
            final(self).sources == old(self).sources,
            final(self).forward == old(self).forward,
            final(self).other.base == old(self).other.base,
            final(self).other.used == old(self).other.used,
            final(self).other.capacity == old(self).other.capacity,
    {
        let ghost ct = classes.table();
        let ghost s = self.sources@[n];
        let ghost before = *self;
        proof {
            self.lemma_fix_facts(h0, ct, roots, n);
            lemma_hdr_with_state(h0[s], 2);
        }
        let header = AllocHeader(self.other.read_word(c));
        if header.kind().into_bits() == 0 {
            self.fix_references_in_object(c, classes, Ghost(h0), Ghost(roots), Ghost(n))?;
        } else {
            self.fix_references_in_array(c, Ghost(h0), Ghost(ct), Ghost(roots), Ghost(n))?;
        }
        let ghost fixed = self.other.memory@;
        self.other.write_word(c, header.with_state(GcState::Unmarked).0);
        proof {
            let fw = forwarded(before.current.base as int, before.other.base as int, before.forward@);
            let tw = tile_words(h0, s);
            let oth0 = before.other.memory@;
            assert forall|k: int| 1 <= k < tw implies #[trigger] self.other.memory@[c + k] == moved_word(h0, s, ct, k, fw) by {
                assert(self.other.memory@[c + k] == fixed[c + k]);
                if k < first_slot(h0[s]) {
                    assert(fixed[c + k] == oth0[c + k]);
                    assert(copy_ok(oth0, h0, c as int, s));
                    assert(oth0[c + k] == h0[s + k]);
                }
            }
            assert forall|m: int|
                0 <= m < oth0.len() && !(c <= m < c + tw) implies #[trigger] self.other.memory@[m] == oth0[m] by {
                assert(self.other.memory@[m] == fixed[m]);
            }
            self.lemma_after_fix(before, h0, ct, roots, n);
        }
        Ok(())
    }

    /// Moves the references of all the copies to the copies, one copy after the other.
    fn fix_references_in_new_region(
        &mut self,
        classes: &ClassManager,
        Ghost(h0): Ghost<Seq<u64>>,
        Ghost(roots): Ghost<Set<int>>,
    ) -> (res: Result<(), VmError>)
        requires
            old(self).fix_inv(h0, classes.table(), roots, 0),
            classes.wf(),
            no_reachable_nested_arrays(h0, old(self).current.base as int, old(self).tiles@, classes.table(), roots),
        ensures
            res is Ok,
            final(self).fix_inv(h0, classes.table(), roots, old(self).sources@.len() as int),
            final(self).current == old(self).current,
            final(self).tiles == old(self).tiles,
            final(self).sources == old(self).sources,
            final(self).forward == old(self).forward,
            final(self).other.base == old(self).other.base,
            final(self).other.used == old(self).other.used,
            final(self).other.capacity == old(self).other.capacity,
    {
        let ghost ct = classes.table();
        let ghost sources = self.sources@;
        proof {
            reveal(ObjectAllocator::fix_inv);
            lemma_copies_total_step(h0, sources, 0);
            let tiles = self.tiles@;
            lemma_tiling_bounds(h0, self.current.used_words(), tiles);
            assert forall|i: int| 0 <= i < sources.len() implies tile_words(h0, #[trigger] sources[i]) >= 2 by {
                let j = choose|j: int| 0 <= j < tiles.len() && tiles[j] == sources[i];
            }
        }
        let end = self.other.used / 8;
        let mut ptr: usize = 0;
        let ghost mut n: int = 0;
        while ptr < end
            invariant
                self.fix_inv(h0, ct, roots, n),
                classes.wf(),
                ct == classes.table(),
                no_reachable_nested_arrays(h0, old(self).current.base as int, old(self).tiles@, ct, roots),
                sources == old(self).sources@,
                forall|i: int| 0 <= i < sources.len() ==> tile_words(h0, #[trigger] sources[i]) >= 2,
                0 <= n <= sources.len(),
                ptr == copies_total(h0, sources, n),
                end == copies_total(h0, sources, sources.len() as int),
                self.current == old(self).current,
                self.tiles == old(self).tiles,
                self.sources == old(self).sources,
                self.forward == old(self).forward,
                self.other.base == old(self).other.base,
                self.other.used == old(self).other.used,
                self.other.capacity == old(self).other.capacity,
            decreases end - ptr,
        {
            proof {
                if n == sources.len() {
                    assert(false);
                }
                self.lemma_fix_facts(h0, ct, roots, n);
                lemma_copies_total_step(h0, sources, n);
                lemma_copies_total_mono(h0, sources, n + 1, sources.len() as int);
                lemma_hdr_with_state(h0[sources[n]], 2);
            }
            let size = AllocHeader(self.other.read_word(ptr)).size();
            self.fix_copy(ptr, classes, Ghost(h0), Ghost(roots), Ghost(n))?;
            ptr = ptr + size / 8;
            proof {
                n = n + 1;
            }
        }
        proof {
            if n < sources.len() {
                lemma_copies_total_step(h0, sources, n);
                lemma_copies_total_mono(h0, sources, n + 1, sources.len() as int);
            }
        }
        Ok(())
    }
}


/// The first words of the allocations that `roots` point at, in a region whose first
/// byte is at `base`.
pub open spec fn root_tiles(base: int, roots: Seq<AbstractObject>) -> Set<int> {
    Set::new(|t: int| exists|i: int| 0 <= i < roots.len() && t == (roots[i].address() - base) / 8)
}

/// Whether the words `new_w` of an object are those of `old_w`, but for the non-null
/// references they hold, which have been replaced by the references that `f` maps them
/// to.
pub open spec fn relocated(
    old_w: Seq<u64>,
    new_w: Seq<u64>,
    classes: Seq<Class>,
    f: Map<AbstractObject, AbstractObject>,
) -> bool {
    &&& new_w.len() == old_w.len()
    &&& new_w[0] == old_w[0]
    &&& forall|k: int|
        1 <= k < old_w.len() ==> #[trigger] new_w[k] == if holds_ref(old_w, 0, classes, k)
            && old_w[k] != 0 {
            f[AbstractObject::spec_at(old_w[k] as usize)].address() as u64
        } else {
            old_w[k]
        }
}

impl ObjectAllocator {
    /// The index of the first word of the allocation of `o` in the current region.
    spec fn tile_of(&self, o: AbstractObject) -> int {
        (o.address() - self.current.base) / 8
    }

    /// Whether `p` is an object reachable from `roots` by following references.
    pub closed spec fn reachable_object(
        &self,
        classes: Seq<Class>,
        roots: Seq<AbstractObject>,
        p: AbstractObject,
    ) -> bool {
        &&& self.is_object(p)
        &&& reachable(
            self.current.memory@,
            self.current.base as int,
            classes,
            root_tiles(self.current.base as int, roots),
            self.tile_of(p),
        )
    }

    /// Whether no array of arrays can be reached from `roots`: the collector cannot move
    /// those.
    pub closed spec fn gc_supported(&self, classes: Seq<Class>, roots: Seq<AbstractObject>) -> bool {
        no_reachable_nested_arrays(
            self.current.memory@,
            self.current.base as int,
            self.tiles@,
            classes,
            root_tiles(self.current.base as int, roots),
        )
    }

    /// Whether `after` holds, and only holds, a copy of each object of `self` reachable
    /// from `roots`: `f` maps each of them to its copy, whose words are those of the
    /// copied object with the references moved along `f`.
    pub open spec fn collected_into(
        &self,
        after: &ObjectAllocator,
        classes: Seq<Class>,
        roots: Seq<AbstractObject>,
        f: Map<AbstractObject, AbstractObject>,
    ) -> bool {
        &&& forall|p: AbstractObject|
            #[trigger] f.dom().contains(p) <==> self.reachable_object(classes, roots, p)
        &&& forall|p: AbstractObject|
            #[trigger] f.dom().contains(p) ==> after.is_object(f[p]) && relocated(
                self.object_words(p),
                after.object_words(f[p]),
                classes,
                f,
            )
        &&& forall|q: AbstractObject|
            #[trigger] after.is_object(q) ==> exists|p: AbstractObject|
                #[trigger] f.dom().contains(p) && f[p] == q
        &&& forall|p1: AbstractObject, p2: AbstractObject|
            #[trigger] f.dom().contains(p1) && #[trigger] f.dom().contains(p2) && f[p1] == f[p2]
                ==> p1 == p2
        &&& exists|order: Seq<AbstractObject>| #[trigger] kept_in_use(*self, *after, f, order)
        &&& after.region_capacity() == self.region_capacity()
    }
}

/// The number of words of the allocations of `objects`.
pub open spec fn total_words(heap: ObjectAllocator, objects: Seq<AbstractObject>) -> int
    decreases objects.len(),
{
    if objects.len() == 0 {
        0
    } else {
        total_words(heap, objects.drop_last()) + heap.object_words(objects.last()).len()
    }
}

/// Whether `order` lists the objects that `f` keeps, each once, and the bytes in use in
/// `after` are those of their allocations in `before`: nothing else is left.
pub open spec fn kept_in_use(
    before: ObjectAllocator,
    after: ObjectAllocator,
    f: Map<AbstractObject, AbstractObject>,
    order: Seq<AbstractObject>,
) -> bool {
    &&& order.no_duplicates()
    &&& forall|p: AbstractObject| #[trigger] order.contains(p) <==> f.dom().contains(p)
    &&& after.used_bytes() == 8 * total_words(before, order)
}

impl ObjectAllocator {
    /// A well-formed heap, with no copy recorded, is ready to be collected.
    proof fn lemma_begin_mark(&self, ct: Seq<Class>, roots: Set<int>)
        requires
            self.wf(ct),
            table_wf(ct),
            self.sources@ == Seq::<int>::empty(),
            self.forward@ == Map::<int, int>::empty(),
        ensures
            self.mark_inv(self.current.memory@, ct, roots),
            forall|t: int| #[trigger] self.tiles@.contains(t) ==> !self.marked(t),
    {
        reveal(ObjectAllocator::mark_inv);
        let h0 = self.current.memory@;
        let tiles = self.tiles@;
        lemma_sum_copied_empty(h0, tiles, tiles.len() as int);
        lemma_copies_total_step(h0, self.sources@, 0);
        assert(self.forward@.dom() =~= Set::<int>::empty());
        assert forall|t: int| #[trigger] self.tiles@.contains(t) implies !self.marked(t) by {
            let j = choose|j: int| 0 <= j < tiles.len() && tiles[j] == t;
            assert(tile_ok(h0, self.current.base as int, tiles, ct, 0, tiles[j]));
        }
        assert forall|j: int|
            0 <= j < tiles.len() && hdr_state(h0[#[trigger] tiles[j]]) == 2 implies reachable(
            h0,
            self.current.base as int,
            ct,
            roots,
            tiles[j],
        ) by {
            assert(tile_ok(h0, self.current.base as int, tiles, ct, 0, tiles[j]));
        }
    }

    /// Once the roots have been visited, the marked allocations are exactly the copied
    /// ones, and exactly the reachable ones: the references of the copies can be moved.
    proof fn lemma_begin_fix(&self, initial: Self, h0: Seq<u64>, ct: Seq<Class>, roots: Set<int>)
        requires
            self.mark_inv(h0, ct, roots),
            initial.gc_progress(*self),
            initial.visit_effect(*self),
            forall|t: int| #[trigger] initial.tiles@.contains(t) ==> !initial.marked(t),
            forall|t: int| #[trigger] roots.contains(t) ==> self.tiles@.contains(t) && self.marked(t),
        ensures
            self.fix_inv(h0, ct, roots, 0),
    {
        reveal(ObjectAllocator::mark_inv);
        reveal(ObjectAllocator::fix_inv);
        let tiles = self.tiles@;
        let b0 = self.current.base as int;
        let b1 = self.other.base as int;
        let fd = self.forward@.dom();
        let used = self.current.used_words();
        lemma_tiling_bounds(h0, used, tiles);
        assert forall|t: int| #[trigger] tiles.contains(t) implies (fd.contains(t) <==> self.marked(t)) by {
            self.lemma_inv_tile(h0, ct, roots, t);
            lemma_hdr_with_state(h0[t], 2);
            if self.marked(t) {
                assert(initial.tiles@.contains(t));
            }
        }
        assert forall|t: int, c: int| #[trigger] fd.contains(t) && #[trigger] is_child(h0, b0, ct, t, c)
            implies fd.contains(c) by {
            assert(self.sources@.contains(t));
            let i = choose|i: int| 0 <= i < self.sources@.len() && self.sources@[i] == t;
            assert(tiles.contains(self.sources@[i]));
            let j = choose|j: int| 0 <= j < tiles.len() && tiles[j] == t;
            assert(tile_ok(h0, b0, tiles, ct, 0, tiles[j]));
            let k = choose|k: int|
                0 <= k < slot_count(h0, t, ct) && slot_is_ref(h0, t, ct, k) && h0[slot_index(h0, t, k)]
                    != 0 && c == #[trigger] target(b0, h0[slot_index(h0, t, k)]);
            assert(ref_ok(b0, tiles, h0[slot_index(h0, t, k)]));
            assert(tiles.contains(c));
        }
        assert forall|t: int| #[trigger] tiles.contains(t) implies (fd.contains(t) <==> reachable(
            h0,
            b0,
            ct,
            roots,
            t,
        )) by {
            if fd.contains(t) {
                let j = choose|j: int| 0 <= j < tiles.len() && tiles[j] == t;
                assert(hdr_state(self.current.memory@[tiles[j]]) == 2);
            }
            if reachable(h0, b0, ct, roots, t) {
                let n = choose|n: nat| #[trigger] reach(h0, b0, ct, roots, n).contains(t);
                assert forall|r: int| roots.contains(r) implies fd.contains(r) by {
                    assert(tiles.contains(r));
                }
                lemma_reach_closed(h0, b0, ct, roots, fd, n);
            }
        }
    }
}

impl ObjectAllocator {
    /// The offsets of the copies in the other region, in the order they were made.
    spec fn copy_offsets(&self, h0: Seq<u64>) -> Seq<int> {
        Seq::new(self.sources@.len(), |i: int| copies_total(h0, self.sources@, i))
    }

    /// Where each object reachable from the roots has been copied to.
    spec fn gc_map(&self, mid: Self) -> Map<AbstractObject, AbstractObject> {
        Map::new(
            |p: AbstractObject| self.is_object(p) && mid.forward@.dom().contains(self.tile_of(p)),
            |p: AbstractObject|
                AbstractObject::spec_at(
                    (mid.other.base + 8 * mid.forward@[self.tile_of(p)]) as usize,
                ),
        )
    }

    /// What the end of the fix tells of the copy number `i`.
    proof fn lemma_fixed_copy_facts(&self, h0: Seq<u64>, ct: Seq<Class>, roots: Set<int>, i: int)
        requires
            self.fix_inv(h0, ct, roots, self.sources@.len() as int),
            0 <= i < self.sources@.len(),
        ensures
            ({
                let s = self.sources@[i];
                let c = copies_total(h0, self.sources@, i);
                let oth = self.other.memory@;
                &&& fixed_copy(
                    oth,
                    h0,
                    self.current.base as int,
                    self.other.base as int,
                    self.forward@,
                    ct,
                    c,
                    s,
                )
                &&& self.tiles@.contains(s)
                &&& self.forward@.dom().contains(s)
                &&& self.forward@[s] == c
                &&& tile_ok(h0, self.current.base as int, self.tiles@, ct, 0, s)
                &&& 0 <= c
                &&& c + tile_words(h0, s) <= self.other.used_words()
                &&& self.other.used_words() <= oth.len()
                &&& tile_words(h0, s) >= 2
                &&& hdr_size(h0[s]) == 8 * tile_words(h0, s)
                &&& 0 <= s
                &&& s + tile_words(h0, s) <= h0.len()
                &&& oth[c] == h0[s]
                &&& tile_words(oth, c) == tile_words(h0, s)
                &&& oth[c + 1] == h0[s + 1]
                &&& hdr_kind(h0[s]) == 1 ==> oth[c + 2] == h0[s + 2]
            }),
            self.current.wf(),
            self.other.wf(),
            table_wf(ct),
            self.current.base + self.current.capacity + 8 <= self.other.base
                || self.other.base + self.other.capacity + 8 <= self.current.base,
            self.current.capacity == self.other.capacity,
            self.other.used_words() == copies_total(h0, self.sources@, self.sources@.len() as int),
    {
        reveal(ObjectAllocator::fix_inv);
        let s = self.sources@[i];
        let tiles = self.tiles@;
        let used = self.current.used_words();
        lemma_tiling_bounds(h0, used, tiles);
        let j = choose|j: int| 0 <= j < tiles.len() && tiles[j] == s;
        assert(tile_ok(h0, self.current.base as int, tiles, ct, 0, tiles[j]));
        assert(self.sources@.contains(s));
        lemma_copies_total_mono(h0, self.sources@, 0, i);
        lemma_copies_total_mono(h0, self.sources@, i + 1, self.sources@.len() as int);
        lemma_copies_total_step(h0, self.sources@, i);
        let c = copies_total(h0, self.sources@, i);
        let oth = self.other.memory@;
        let fw = forwarded(self.current.base as int, self.other.base as int, self.forward@);
        assert(oth[c + 1] == moved_word(h0, s, ct, 1, fw));
        if hdr_kind(h0[s]) == 1 {
            assert(oth[c + 2] == moved_word(h0, s, ct, 2, fw));
        }
    }

    /// Where a non-null reference held by an allocation that has been copied leads to.
    proof fn lemma_target_copied(&self, h0: Seq<u64>, ct: Seq<Class>, roots: Set<int>, s: int, k: int)
        requires
            self.fix_inv(h0, ct, roots, self.sources@.len() as int),
            self.forward@.dom().contains(s),
            holds_ref(h0, s, ct, k),
            h0[s + k] != 0,
        ensures
            ({
                let v = h0[s + k];
                let t = target(self.current.base as int, v);
                let b1 = self.other.base as int;
                &&& v >= self.current.base
                &&& (v - self.current.base) % 8 == 0
                &&& v as usize == v
                &&& self.tiles@.contains(t)
                &&& self.forward@.dom().contains(t)
                &&& exists|m: int|
                    0 <= m < self.sources@.len() && #[trigger] self.sources@[m] == t
                        && self.forward@[t] == copies_total(h0, self.sources@, m)
                &&& 0 <= self.forward@[t]
                &&& b1 + 8 * self.forward@[t] + 8 <= b1 + self.other.capacity
                &&& ((b1 + 8 * self.forward@[t]) as usize) as u64 == forwarded(
                    self.current.base as int,
                    b1,
                    self.forward@,
                )(v)
            }),
    {
        reveal(ObjectAllocator::fix_inv);
        let b0 = self.current.base as int;
        let tiles = self.tiles@;
        let used = self.current.used_words();
        let sources = self.sources@;
        lemma_tiling_bounds(h0, used, tiles);
        assert(sources.contains(s));
        let m0 = choose|m: int| 0 <= m < sources.len() && sources[m] == s;
        assert(tiles.contains(sources[m0]));
        let j = choose|j: int| 0 <= j < tiles.len() && tiles[j] == s;
        assert(tile_ok(h0, b0, tiles, ct, 0, tiles[j]));
        let i = k - first_slot(h0[s]);
        assert(slot_index(h0, s, i) == s + k);
        let v = h0[s + k];
        assert(ref_ok(b0, tiles, h0[slot_index(h0, s, i)]));
        let t = target(b0, v);
        assert(is_child(h0, b0, ct, s, t));
        assert(self.forward@.dom().contains(t));
        assert(sources.contains(t));
        let m = choose|m: int| 0 <= m < sources.len() && sources[m] == t;
        assert(self.forward@[sources[m]] == copies_total(h0, sources, m));
        let jt = choose|j: int| 0 <= j < tiles.len() && tiles[j] == t;
        lemma_copies_total_mono(h0, sources, 0, m);
        lemma_copies_total_mono(h0, sources, m + 1, sources.len() as int);
        lemma_copies_total_step(h0, sources, m);
        assert(tile_ok(h0, b0, tiles, ct, 0, tiles[jt]));
    }

    /// The copy number `i` is a well-formed allocation of the other region, holding
    /// references to the copies.
    proof fn lemma_copy_tile_ok(&self, h0: Seq<u64>, ct: Seq<Class>, roots: Set<int>, i: int)
        requires
            self.fix_inv(h0, ct, roots, self.sources@.len() as int),
            0 <= i < self.sources@.len(),
        ensures
            tile_ok(
                self.other.memory@,
                self.other.base as int,
                self.copy_offsets(h0),
                ct,
                0,
                copies_total(h0, self.sources@, i),
            ),
    {
        self.lemma_fixed_copy_facts(h0, ct, roots, i);
        let s = self.sources@[i];
        let c = copies_total(h0, self.sources@, i);
        let oth = self.other.memory@;
        let b0 = self.current.base as int;
        let b1 = self.other.base as int;
        let offs = self.copy_offsets(h0);
        let fw = forwarded(b0, b1, self.forward@);
        assert(tile_layout_ok(oth, c, ct));
        assert forall|i2: int|
            0 <= i2 < slot_count(oth, c, ct) && slot_is_ref(oth, c, ct, i2) implies ref_ok(
            b1,
            offs,
            oth[#[trigger] slot_index(oth, c, i2)],
        ) by {
            let k = first_slot(h0[s]) + i2;
            assert(slot_index(oth, c, i2) == c + k);
            assert(oth[c + k] == moved_word(h0, s, ct, k, fw));
            assert(holds_ref(h0, s, ct, k));
            if h0[s + k] != 0 {
                self.lemma_target_copied(h0, ct, roots, s, k);
                let t = target(b0, h0[s + k]);
                let m = choose|m: int|
                    0 <= m < self.sources@.len() && #[trigger] self.sources@[m] == t
                        && self.forward@[t] == copies_total(h0, self.sources@, m);
                assert(offs[m] == self.forward@[t]);
            }
        }
    }
}


impl ObjectAllocator {
    /// Once all the copies are fixed, they form a well-formed heap.
    proof fn lemma_end_heap(&self, h0: Seq<u64>, ct: Seq<Class>, roots: Set<int>)
        requires
            self.fix_inv(h0, ct, roots, self.sources@.len() as int),
        ensures
            heap_ok(
                self.other.memory@,
                self.other.base as int,
                self.other.used_words(),
                self.copy_offsets(h0),
                ct,
                0,
            ),
    {
        let sources = self.sources@;
        let oth = self.other.memory@;
        let offs = self.copy_offsets(h0);
        let used1 = self.other.used_words();
        lemma_copies_total_step(h0, sources, 0);
        self.lemma_fix_basics(h0, ct, roots);
        assert forall|j: int| 0 <= j < offs.len() implies 0 <= #[trigger] offs[j] < used1 && hdr_size(
            oth[offs[j]],
        ) % 8 == 0 && tile_words(oth, offs[j]) >= 2 by {
            self.lemma_fixed_copy_facts(h0, ct, roots, j);
        }
        if offs.len() > 0 {
            let n = offs.len() - 1;
            self.lemma_fixed_copy_facts(h0, ct, roots, n);
            lemma_copies_total_step(h0, sources, n);
            assert(offs.last() == offs[n]);
        }
        assert forall|j: int| 0 <= j < offs.len() - 1 implies #[trigger] offs[j + 1] == offs[j]
            + tile_words(oth, offs[j]) by {
            self.lemma_fixed_copy_facts(h0, ct, roots, j);
            lemma_copies_total_step(h0, sources, j);
        }
        assert(tiling(oth, used1, offs));
        assert forall|j: int| 0 <= j < offs.len() implies tile_ok(
            oth,
            self.other.base as int,
            offs,
            ct,
            0,
            #[trigger] offs[j],
        ) by {
            self.lemma_copy_tile_ok(h0, ct, roots, j);
        }
    }

    /// Objects of the collected heap are those whose tile is forwarded.
    proof fn lemma_gc_map_domain(&self, mid: Self, ct: Seq<Class>, roots: Seq<AbstractObject>)
        requires
            mid.fix_inv(
                self.current.memory@,
                ct,
                root_tiles(self.current.base as int, roots),
                mid.sources@.len() as int,
            ),
            mid.current.base == self.current.base,
            mid.tiles == self.tiles,
        ensures
            forall|p: AbstractObject|
                #[trigger] self.gc_map(mid).dom().contains(p) <==> self.reachable_object(ct, roots, p),
    {
        reveal(ObjectAllocator::fix_inv);
        assert forall|p: AbstractObject| #[trigger] self.gc_map(mid).dom().contains(p)
            <==> self.reachable_object(ct, roots, p) by {
            if self.is_object(p) {
                assert(self.tiles@.contains(self.tile_of(p)));
            }
        }
    }

    /// Each object reachable from the roots has a copy, whose words are its own with the
    /// references moved to the copies.
    #[verifier::rlimit(40)]
    proof fn lemma_gc_map_image(
        &self,
        mid: Self,
        fin: Self,
        ct: Seq<Class>,
        roots: Seq<AbstractObject>,
        p: AbstractObject,
    )
        requires
            mid.fix_inv(
                self.current.memory@,
                ct,
                root_tiles(self.current.base as int, roots),
                mid.sources@.len() as int,
            ),
            mid.current.base == self.current.base,
            mid.tiles == self.tiles,
            fin.current.memory@ == mid.other.memory@,
            fin.current.base == mid.other.base,
            fin.tiles@ == mid.copy_offsets(self.current.memory@),
            self.gc_map(mid).dom().contains(p),
        ensures
            fin.is_object(self.gc_map(mid)[p]),
            relocated(self.object_words(p), fin.object_words(self.gc_map(mid)[p]), ct, self.gc_map(mid)),
    {
        let h0 = self.current.memory@;
        let rs = root_tiles(self.current.base as int, roots);
        let f = self.gc_map(mid);
        let t = self.tile_of(p);
        let b0 = self.current.base as int;
        let b1 = mid.other.base as int;
        let sources = mid.sources@;
        let oth = mid.other.memory@;
        let fw = forwarded(b0, b1, mid.forward@);
        assert(sources.contains(t)) by {
            reveal(ObjectAllocator::fix_inv);
        }
        let m = choose|m: int| 0 <= m < sources.len() && sources[m] == t;
        mid.lemma_fixed_copy_facts(h0, ct, rs, m);
        let c = copies_total(h0, sources, m);
        let q = f[p];
        AbstractObject::lemma_spec_at(q);
        assert(q.address() == b1 + 8 * c);
        assert(fin.tiles@[m] == c);
        assert(fin.is_object(q));
        let ow = self.object_words(p);
        let nw = fin.object_words(q);
        let tw = tile_words(h0, t);
        assert(ow.len() == tw);
        assert(nw.len() == tw);
        assert(ow[0] == h0[t]);
        assert(ow[1] == h0[t + 1]);
        if hdr_kind(h0[t]) == 1 {
            assert(ow[2] == h0[t + 2]);
        }
        assert forall|k: int| 1 <= k < ow.len() implies #[trigger] nw[k] == if holds_ref(ow, 0, ct, k)
            && ow[k] != 0 {
            f[AbstractObject::spec_at(ow[k] as usize)].address() as u64
        } else {
            ow[k]
        } by {
            assert(nw[k] == oth[c + k]);
            assert(ow[k] == h0[t + k]);
            assert(oth[c + k] == moved_word(h0, t, ct, k, fw));
            assert(holds_ref(ow, 0, ct, k) == holds_ref(h0, t, ct, k));
            if holds_ref(h0, t, ct, k) && h0[t + k] != 0 {
                let v = h0[t + k];
                mid.lemma_target_copied(h0, ct, rs, t, k);
                let r = AbstractObject::spec_at(v as usize);
                AbstractObject::lemma_spec_at(r);
                assert(self.tile_of(r) == target(b0, v));
                assert(f.dom().contains(r));
                AbstractObject::lemma_spec_at(f[r]);
            }
        }
    }

    /// Each object of the collected heap is the copy of an object reachable from the
    /// roots.
    proof fn lemma_gc_map_onto(
        &self,
        mid: Self,
        fin: Self,
        ct: Seq<Class>,
        roots: Seq<AbstractObject>,
        q: AbstractObject,
    )
        requires
            mid.fix_inv(
                self.current.memory@,
                ct,
                root_tiles(self.current.base as int, roots),
                mid.sources@.len() as int,
            ),
            mid.current.base == self.current.base,
            mid.tiles == self.tiles,
            fin.current.base == mid.other.base,
            fin.tiles@ == mid.copy_offsets(self.current.memory@),
            fin.is_object(q),
        ensures
            exists|p: AbstractObject| #[trigger] self.gc_map(mid).dom().contains(p) && self.gc_map(mid)[p] == q,
    {
        let h0 = self.current.memory@;
        let rs = root_tiles(self.current.base as int, roots);
        let b0 = self.current.base as int;
        let b1 = mid.other.base as int;
        let sources = mid.sources@;
        let c = fin.tile_of(q);
        let m = choose|m: int| 0 <= m < fin.tiles@.len() && fin.tiles@[m] == c;
        mid.lemma_fixed_copy_facts(h0, ct, rs, m);
        let s = sources[m];
        mid.lemma_inv_tiles_bound(h0, ct, rs, s);
        let p = AbstractObject::spec_at((b0 + 8 * s) as usize);
        AbstractObject::lemma_spec_at(p);
        assert(self.tile_of(p) == s);
        assert(self.is_object(p));
        assert(self.gc_map(mid).dom().contains(p));
        AbstractObject::lemma_spec_at(q);
        AbstractObject::lemma_spec_at(self.gc_map(mid)[p]);
        AbstractObject::lemma_address_injective(self.gc_map(mid)[p], q);
    }

    /// Distinct objects have distinct copies.
    /// The bytes in use after a collection are those of the objects it copied.
    proof fn lemma_gc_accounting(&self, mid: Self, fin: Self, ct: Seq<Class>, roots: Seq<AbstractObject>)
        requires
            self.wf(ct),
            mid.fix_inv(
                self.current.memory@,
                ct,
                root_tiles(self.current.base as int, roots),
                mid.sources@.len() as int,
            ),
            mid.current.base == self.current.base,
            mid.tiles == self.tiles,
            fin.current.used == mid.other.used,
        ensures
            exists|order: Seq<AbstractObject>| #[trigger] kept_in_use(*self, fin, self.gc_map(mid), order),
    {
        reveal(ObjectAllocator::fix_inv);
        let h0 = self.current.memory@;
        let b0 = self.current.base as int;
        let tiles = self.tiles@;
        let sources = mid.sources@;
        let f = self.gc_map(mid);
        let order = Seq::new(sources.len(), |i: int| AbstractObject::spec_at((b0 + 8 * sources[i]) as usize));
        lemma_tiling_bounds(h0, self.current.used_words(), tiles);
        assert forall|i: int| 0 <= i < sources.len() implies self.is_object(#[trigger] order[i])
            && self.tile_of(order[i]) == sources[i]
            && self.object_words(order[i]).len() == tile_words(h0, sources[i]) by {
            let t = sources[i];
            assert(tiles.contains(t));
            let j = choose|j: int| 0 <= j < tiles.len() && tiles[j] == t;
            assert(t + tile_words(h0, tiles[j]) <= self.current.used_words());
            AbstractObject::lemma_spec_at(order[i]);
            assert(order[i].address() == (b0 + 8 * t) as usize);
        }
        assert forall|i: int| 0 <= i <= sources.len() implies #[trigger] total_words(*self, order.take(i))
            == copies_total(h0, sources, i) by {
            self.lemma_total_words_prefix(order, sources, h0, i);
        }
        assert(order.take(sources.len() as int) =~= order);
        assert(order.no_duplicates()) by {
            assert forall|i: int, j: int| 0 <= i < order.len() && 0 <= j < order.len() && i != j
                implies order[i] != order[j] by {
                if order[i] == order[j] {
                    assert(self.tile_of(order[i]) == self.tile_of(order[j]));
                }
            }
        }
        assert forall|p: AbstractObject| #[trigger] order.contains(p) <==> f.dom().contains(p) by {
            if order.contains(p) {
                let i = choose|i: int| 0 <= i < order.len() && order[i] == p;
                assert(sources.contains(sources[i]));
            }
            if f.dom().contains(p) {
                let t = self.tile_of(p);
                assert(sources.contains(t));
                let i = choose|i: int| 0 <= i < sources.len() && sources[i] == t;
                AbstractObject::lemma_spec_at(p);
                AbstractObject::lemma_address_injective(p, order[i]);
                assert(order[i] == p);
            }
        }
        assert(kept_in_use(*self, fin, f, order));
    }

    /// The words of the first objects of `order` add up to the offset of the next copy.
    proof fn lemma_total_words_prefix(&self, order: Seq<AbstractObject>, sources: Seq<int>, h0: Seq<u64>, i: int)
        requires
            0 <= i <= sources.len(),
            order.len() == sources.len(),
            forall|k: int| 0 <= k < sources.len() ==> self.object_words(#[trigger] order[k]).len() == tile_words(h0, sources[k]),
        ensures
            total_words(*self, order.take(i)) == copies_total(h0, sources, i),
        decreases i,
    {
        lemma_copies_total_step(h0, sources, 0);
        if i > 0 {
            self.lemma_total_words_prefix(order, sources, h0, i - 1);
            lemma_copies_total_step(h0, sources, i - 1);
            assert(order.take(i).drop_last() =~= order.take(i - 1));
            assert(order.take(i).last() == order[i - 1]);
        }
    }

    proof fn lemma_gc_map_injective(
        &self,
        mid: Self,
        ct: Seq<Class>,
        roots: Seq<AbstractObject>,
        p1: AbstractObject,
        p2: AbstractObject,
    )
        requires
            mid.fix_inv(
                self.current.memory@,
                ct,
                root_tiles(self.current.base as int, roots),
                mid.sources@.len() as int,
            ),
            mid.current.base == self.current.base,
            mid.tiles == self.tiles,
            self.gc_map(mid).dom().contains(p1),
            self.gc_map(mid).dom().contains(p2),
            self.gc_map(mid)[p1] == self.gc_map(mid)[p2],
        ensures
            p1 == p2,
    {
        reveal(ObjectAllocator::fix_inv);
        let h0 = self.current.memory@;
        let rs = root_tiles(self.current.base as int, roots);
        let sources = mid.sources@;
        let t1 = self.tile_of(p1);
        let t2 = self.tile_of(p2);
        assert(sources.contains(t1));
        assert(sources.contains(t2));
        let m1 = choose|m: int| 0 <= m < sources.len() && sources[m] == t1;
        let m2 = choose|m: int| 0 <= m < sources.len() && sources[m] == t2;
        mid.lemma_fixed_copy_facts(h0, ct, rs, m1);
        mid.lemma_fixed_copy_facts(h0, ct, rs, m2);
        AbstractObject::lemma_spec_at(self.gc_map(mid)[p1]);
        AbstractObject::lemma_spec_at(self.gc_map(mid)[p2]);
        let tiles = self.tiles@;
        lemma_tiling_bounds(h0, mid.current.used_words(), tiles);
        assert forall|k: int| 0 <= k < sources.len() implies tile_words(h0, #[trigger] sources[k]) >= 1 by {
            let j = choose|j: int| 0 <= j < tiles.len() && tiles[j] == sources[k];
        }
        if m1 < m2 {
            lemma_copies_total_strict(h0, sources, m1, m2);
        } else if m2 < m1 {
            lemma_copies_total_strict(h0, sources, m2, m1);
        }
        AbstractObject::lemma_address_injective(p1, p2);
    }

    /// What the invariant of the fix tells of the two regions.
    proof fn lemma_fix_basics(&self, h0: Seq<u64>, ct: Seq<Class>, roots: Set<int>)
        requires
            self.fix_inv(h0, ct, roots, self.sources@.len() as int),
        ensures
            self.current.wf(),
            self.other.wf(),
            table_wf(ct),
            self.current.base + self.current.capacity + 8 <= self.other.base
                || self.other.base + self.other.capacity + 8 <= self.current.base,
            self.current.capacity == self.other.capacity,
            self.other.used_words() == copies_total(h0, self.sources@, self.sources@.len() as int),
    {
        reveal(ObjectAllocator::fix_inv);
    }

    /// The roots are reachable, hence copied.
    proof fn lemma_roots_copied(&self, h0: Seq<u64>, ct: Seq<Class>, roots: Set<int>, t: int)
        requires
            self.fix_inv(h0, ct, roots, self.sources@.len() as int),
            roots.contains(t),
            self.tiles@.contains(t),
        ensures
            self.forward@.dom().contains(t),
    {
        reveal(ObjectAllocator::fix_inv);
        assert(reach(h0, self.current.base as int, ct, roots, 0).contains(t));
    }

    /// An allocation lies inside the used part of the region, whose addresses fit.
    proof fn lemma_inv_tiles_bound(&self, h0: Seq<u64>, ct: Seq<Class>, roots: Set<int>, t: int)
        requires
            self.fix_inv(h0, ct, roots, self.sources@.len() as int),
            self.tiles@.contains(t),
        ensures
            0 <= t,
            t + tile_words(h0, t) <= self.current.used_words(),
            self.current.base + 8 * t + 8 <= self.current.base + self.current.capacity,
            self.current.base + self.current.capacity + 8 <= usize::MAX,
            t + 1 < self.current.memory@.len(),
            tile_state_ok(self.current.memory@, h0, self.forward@, self.other.base as int, t),
    {
        reveal(ObjectAllocator::fix_inv);
        let tiles = self.tiles@;
        lemma_tiling_bounds(h0, self.current.used_words(), tiles);
        let j = choose|j: int| 0 <= j < tiles.len() && tiles[j] == t;
        assert(tile_state_ok(self.current.memory@, h0, self.forward@, self.other.base as int, tiles[j]));
    }
}

impl ObjectAllocator {
    /// The reference to the copy of the root `root`, read from the second word of the
    /// allocation it points at.
    fn fix_gc_root(
        &self,
        root: AbstractObject,
        Ghost(h0): Ghost<Seq<u64>>,
        Ghost(ct): Ghost<Seq<Class>>,
        Ghost(roots): Ghost<Set<int>>,
    ) -> (res: AbstractObject)
        requires
            self.fix_inv(h0, ct, roots, self.sources@.len() as int),
            self.is_object(root),
            self.forward@.dom().contains(self.tile_of(root)),
        ensures
            res == AbstractObject::spec_at(
                (self.other.base + 8 * self.forward@[self.tile_of(root)]) as usize,
            ),
    {
        let ghost t = self.tile_of(root);
        proof {
            self.lemma_inv_tiles_bound(h0, ct, roots, t);
            assert(self.sources@.contains(t)) by {
                reveal(ObjectAllocator::fix_inv);
            }
            let m = choose|m: int| 0 <= m < self.sources@.len() && self.sources@[m] == t;
            self.lemma_fixed_copy_facts(h0, ct, roots, m);
        }
        let t = (root.addr() - self.current.base) / 8;
        let new_address = self.current.read_word(t + 1);
        AbstractObject::at(new_address as usize)
    }

    /// Collects the garbage: copies the objects reachable from `roots` to the other
    /// region, moves their references and the roots to the copies, and makes the other
    /// region the current one. Arrays of arrays reachable from the roots are not
    /// supported.
    pub fn do_garbage_collection(
        &mut self,
        roots: &mut Vec<AbstractObject>,
        classes: &ClassManager,
    ) -> (res: Result<(), VmError>)
        requires
            old(self).wf(classes.table()),
            classes.wf(),
            forall|i: int| 0 <= i < old(roots)@.len() ==> old(self).is_object(#[trigger] old(roots)@[i]),
            old(self).gc_supported(classes.table(), old(roots)@),
        ensures
            res is Ok,
            final(self).wf(classes.table()),
            final(roots)@.len() == old(roots)@.len(),
            exists|f: Map<AbstractObject, AbstractObject>|
                {
                    &&& old(self).collected_into(final(self), classes.table(), old(roots)@, f)
                    &&& forall|i: int|
                        0 <= i < old(roots)@.len() ==> #[trigger] final(roots)@[i] == f[old(roots)@[i]]
                },
    {
        let ghost ct = classes.table();
        let ghost h0 = self.current.memory@;
        let ghost b0 = self.current.base as int;
        let ghost rs = root_tiles(b0, roots@);
        let ghost start = *self;
        self.sources = Ghost(Seq::empty());
        self.forward = Ghost(Map::empty());
        proof {
            classes.lemma_wf();
            self.lemma_begin_mark(ct, rs);
            self.lemma_gc_progress_refl();
        }
        let ghost initial = *self;
        // Copy all reachable objects to the other region
        let mut i: usize = 0;
        while i < roots.len()
            invariant
                self.mark_inv(h0, ct, rs),
                classes.wf(),
                ct == classes.table(),
                initial.gc_progress(*self),
                initial.visit_effect(*self),
                initial.current.base == b0,
                initial.tiles == start.tiles,
                initial.current.base == start.current.base,
                forall|t: int| #[trigger] initial.tiles@.contains(t) ==> !initial.marked(t),
                no_reachable_nested_arrays(h0, b0, start.tiles@, ct, rs),
                roots@ == old(roots)@,
                rs == root_tiles(b0, old(roots)@),
                forall|j: int| 0 <= j < roots@.len() ==> start.is_object(#[trigger] roots@[j]),
                i <= roots@.len(),
                forall|j: int|
                    0 <= j < i ==> self.tiles@.contains(start.tile_of(#[trigger] roots@[j])) && self.marked(
                        start.tile_of(roots@[j]),
                    ),
            decreases roots@.len() - i,
        {
            let ghost before = *self;
            proof {
                assert(rs.contains(start.tile_of(roots@[i as int])));
            }
            self.visit(roots[i].addr(), classes, Ghost(h0), Ghost(rs), Ghost(0))?;
            proof {
                initial.lemma_gc_progress_trans(before, *self);
            }
            i = i + 1;
        }
        proof {
            assert forall|t: int| #[trigger] rs.contains(t) implies self.tiles@.contains(t) && self.marked(t) by {
                let j = choose|j: int| 0 <= j < roots@.len() && t == (roots@[j].address() - b0) / 8;
                assert(start.tile_of(roots@[j]) == t);
            }
            self.lemma_begin_fix(initial, h0, ct, rs);
        }
        self.fix_references_in_new_region(classes, Ghost(h0), Ghost(rs))?;
        let ghost mid = *self;
        let ghost f = start.gc_map(mid);
        proof {
            assert forall|j: int| 0 <= j < old(roots)@.len() implies mid.forward@.dom().contains(
                start.tile_of(#[trigger] old(roots)@[j]),
            ) by {
                assert(rs.contains(start.tile_of(old(roots)@[j])));
                mid.lemma_roots_copied(h0, ct, rs, start.tile_of(old(roots)@[j]));
            }
        }
        // Move the roots to the copies
        let mut i: usize = 0;
        while i < roots.len()
            invariant
                self.fix_inv(h0, ct, rs, self.sources@.len() as int),
                *self == mid,
                mid.current.base == start.current.base,
                mid.tiles == start.tiles,
                f == start.gc_map(mid),
                roots@.len() == old(roots)@.len(),
                forall|j: int| 0 <= j < roots@.len() ==> start.is_object(#[trigger] old(roots)@[j]),
                forall|j: int| 0 <= j < old(roots)@.len() ==> mid.forward@.dom().contains(start.tile_of(#[trigger] old(roots)@[j])),
                i <= roots@.len(),
                forall|j: int| 0 <= j < i ==> #[trigger] roots@[j] == f[old(roots)@[j]],
                forall|j: int| i <= j < roots@.len() ==> #[trigger] roots@[j] == old(roots)@[j],
            decreases roots@.len() - i,
        {
            let new_root = self.fix_gc_root(roots[i], Ghost(h0), Ghost(ct), Ghost(rs));
            roots.set(i, new_root);
            i = i + 1;
        }
        // Swap the regions and reset the allocation pointer
        std::mem::swap(&mut self.current, &mut self.other);
        self.other.used = 0;
        self.tiles = Ghost(mid.copy_offsets(h0));
        self.sources = Ghost(Seq::empty());
        self.forward = Ghost(Map::empty());
        proof {
            mid.lemma_end_heap(h0, ct, rs);
            mid.lemma_fix_basics(h0, ct, rs);
            assert(self.wf(ct));
            start.lemma_gc_map_domain(mid, ct, old(roots)@);
            assert forall|p: AbstractObject| #[trigger] f.dom().contains(p) implies self.is_object(f[p])
                && relocated(start.object_words(p), self.object_words(f[p]), ct, f) by {
                start.lemma_gc_map_image(mid, *self, ct, old(roots)@, p);
            }
            assert forall|q: AbstractObject| #[trigger] self.is_object(q) implies exists|p: AbstractObject|
                #[trigger] f.dom().contains(p) && f[p] == q by {
                start.lemma_gc_map_onto(mid, *self, ct, old(roots)@, q);
            }
            assert forall|p1: AbstractObject, p2: AbstractObject|
                #[trigger] f.dom().contains(p1) && #[trigger] f.dom().contains(p2) && f[p1] == f[p2]
                    implies p1 == p2 by {
                start.lemma_gc_map_injective(mid, ct, old(roots)@, p1, p2);
            }
            start.lemma_gc_accounting(mid, *self, ct, old(roots)@);
            assert(start.collected_into(self, ct, old(roots)@, f));
        }
        Ok(())
    }
}



impl ObjectAllocator {
    /// Whether an array of arrays can be reached from `roots`: the collector cannot move
    /// those. Walks the allocations that the roots lead to.
    pub fn reaches_nested_arrays(&self, roots: &Vec<AbstractObject>, classes: &ClassManager) -> (res: bool)
        requires
            self.wf(classes.table()),
            classes.wf(),
            forall|i: int| 0 <= i < roots@.len() ==> self.is_object(#[trigger] roots@[i]),
        ensures
            res == !self.gc_supported(classes.table(), roots@),
    {
        let ghost w = self.current.memory@;
        let ghost ct = classes.table();
        let ghost b0 = self.current.base as int;
        let ghost tiles = self.tiles@;
        let ghost rs = root_tiles(b0, roots@);
        let n = self.current.memory.len();
        proof {
            classes.lemma_wf();
            lemma_tiling_bounds(w, self.current.used_words(), tiles);
        }
        let mut visited: Vec<bool> = Vec::new();
        while visited.len() < n
            invariant
                visited@.len() <= n,
                forall|t: int| 0 <= t < visited@.len() ==> !visited@[t],
            decreases n - visited@.len(),
        {
            visited.push(false);
        }
        let mut stack: Vec<usize> = Vec::new();
        proof {
            self.lemma_walk_start(visited@, ct, rs);
        }
        let mut r: usize = 0;
        while r < roots.len()
            invariant
                self.wf(ct),
                ct == classes.table(),
                w == self.current.memory@,
                b0 == self.current.base,
                tiles == self.tiles@,
                n == w.len(),
                rs == root_tiles(b0, roots@),
                forall|i: int| 0 <= i < roots@.len() ==> self.is_object(#[trigger] roots@[i]),
                r <= roots@.len(),
                self.walk_inv(visited@, stack@, ct, rs, -1),
                forall|i: int| 0 <= i < r ==> visited@[(#[trigger] roots@[i].address() - b0) / 8],
            decreases roots@.len() - r,
        {
            let t = (roots[r].addr() - self.current.base) / 8;
            proof {
                assert(self.is_object(roots@[r as int]));
                self.lemma_tile_in_memory(ct, t as int);
                assert(rs.contains(t as int));
                assert(reach(w, b0, ct, rs, 0).contains(t as int));
            }
            if !visited[t] {
                let ghost v0 = visited@;
                let ghost s0 = stack@;
                visited.set(t, true);
                stack.push(t);
                proof {
                    self.lemma_walk_add(v0, s0, ct, rs, t as int, 0);
                }
            }
            r = r + 1;
        }
        proof {
            assert forall|t: int| #[trigger] rs.contains(t) implies 0 <= t < n && visited@[t] by {
                let i = choose|i: int| 0 <= i < roots@.len() && t == (roots@[i].address() - b0) / 8;
                assert(visited@[(roots@[i].address() - b0) / 8]);
                self.lemma_walk_visited(visited@, stack@, ct, rs, -1, t);
            }
        }
        while stack.len() > 0
            invariant
                self.wf(ct),
                ct == classes.table(),
                classes.wf(),
                w == self.current.memory@,
                b0 == self.current.base,
                tiles == self.tiles@,
                n == w.len(),
                rs == root_tiles(b0, roots@),
                self.walk_inv(visited@, stack@, ct, rs, -1),
                forall|t: int| #[trigger] rs.contains(t) ==> 0 <= t < n && visited@[t],
            decreases count_false(visited@), stack@.len(),
        {
            let ghost full = stack@;
            let t = stack.pop().unwrap();
            let ghost popped = stack@;
            proof {
                assert(full == popped.push(t));
                self.lemma_walk_pop(visited@, popped, ct, rs, t as int);
            }
            let header = AllocHeader(self.current.read_word(t));
            let kind = header.kind();
            let second = self.current.read_word(t + 1);
            let is_object_tile = match kind {
                ObjectKind::Object => true,
                ObjectKind::Array => false,
            };
            proof {
                assert(is_object_tile == (hdr_kind(w[t as int]) == 0));
                lemma_hdr_bounds(w[t as int]);
            }
            if !is_object_tile && second == 8 {
                proof {
                    assert(!no_reachable_nested_arrays(w, b0, tiles, ct, rs));
                }
                return true;
            }
            let ghost v_start = visited@;
            let count: usize;
            let first: usize;
            let mut object_fields: Vec<&ClassFileField> = Vec::new();
            if is_object_tile {
                proof {
                    classes.lemma_wf();
                    assert(has_class(ct, w[t + 1] as int));
                    assert(second as u32 == second);
                }
                let class_id = ClassId::new(second as u32);
                object_fields = classes.all_fields(class_id);
                proof {
                    lemma_field_at_all_fields(ct, class_id@ as int, 0);
                    assert forall|j: int| 0 <= j < object_fields@.len() implies #[trigger] object_fields@[j].type_descriptor.is_reference()
                        == slot_is_ref(w, t as int, ct, j) by {
                        assert(*object_fields@[j] == all_fields(ct, class_id@ as int)[j]);
                    }
                }
                count = object_fields.len();
                first = t + 2;
            } else if second < 8 {
                count = 0;
                first = t + 3;
            } else {
                count = self.current.read_word(t + 2) as usize;
                first = t + 3;
            }
            let mut i: usize = 0;
            while i < count
                invariant
                    self.wf(ct),
                    ct == classes.table(),
                    classes.wf(),
                    w == self.current.memory@,
                    b0 == self.current.base,
                    tiles == self.tiles@,
                    n == w.len(),
                    rs == root_tiles(b0, roots@),
                    tiles.contains(t as int),
                    0 <= t < n,
                    !(hdr_kind(w[t as int]) == 1 && w[t + 1] == 8),
                    tile_ok(w, b0, tiles, ct, 0, t as int),
                    t + tile_words(w, t as int) <= n,
                    is_object_tile == (hdr_kind(w[t as int]) == 0),
                    second == w[t + 1],
                    is_object_tile ==> object_fields@.len() == count && forall|j: int|
                        0 <= j < object_fields@.len() ==> #[trigger] object_fields@[j].type_descriptor.is_reference()
                            == slot_is_ref(w, t as int, ct, j),
                    is_object_tile || second >= 8 ==> count == slot_count(w, t as int, ct),
                    !is_object_tile && second < 8 ==> count == 0,
                    first == if is_object_tile { t + 2 } else { t + 3 },
                    i <= count,
                    count_false(visited@) + stack@.len() == count_false(v_start) + popped.len(),
                    popped.len() <= stack@.len(),
                    self.walk_inv(visited@, stack@, ct, rs, t as int),
                    visited@[t as int],
                    !on_stack(stack@, t as int),
                    forall|j: int|
                        0 <= j < i && slot_is_ref(w, t as int, ct, j) && w[slot_index(w, t as int, j)] != 0 ==> visited@[#[trigger] target(
                            b0,
                            w[slot_index(w, t as int, j)],
                        )],
                    forall|u: int| #[trigger] rs.contains(u) ==> 0 <= u < n && visited@[u],
                decreases count - i,
            {
                let is_ref = if is_object_tile {
                    object_fields[i].type_descriptor.is_reference_type()
                } else {
                    true
                };
                if is_ref {
                    proof {
                        assert(slot_is_ref(w, t as int, ct, i as int));
                        assert(slot_index(w, t as int, i as int) == first + i);
                    }
                    let v = self.current.read_word(first + i);
                    if v != 0 {
                        proof {
                            assert(ref_ok(b0, tiles, w[slot_index(w, t as int, i as int)]));
                        }
                        let c = ((v as usize) - self.current.base) / 8;
                        proof {
                            self.lemma_tile_in_memory(ct, c as int);
                            assert(c as int == target(b0, w[slot_index(w, t as int, i as int)]));
                            assert(is_child(w, b0, ct, t as int, c as int));
                            self.lemma_walk_visited(visited@, stack@, ct, rs, t as int, t as int);
                            let k = choose|k: nat| #[trigger] reach(w, b0, ct, rs, k).contains(t as int);
                            lemma_reach_child(w, b0, ct, rs, k, t as int, c as int);
                        }
                        if !visited[c] {
                            let ghost v0 = visited@;
                            let ghost s0 = stack@;
                            visited.set(c, true);
                            stack.push(c);
                            proof {
                                let k = choose|k: nat| #[trigger] reach(w, b0, ct, rs, k).contains(t as int);
                                self.lemma_walk_add_open(v0, s0, ct, rs, c as int, k + 1, t as int);
                            }
                        }
                    }
                }
                i = i + 1;
            }
            proof {
                if !is_object_tile && second < 8 {
                    assert forall|j: int| !slot_is_ref(w, t as int, ct, j) by {}
                }
                self.lemma_walk_close(visited@, stack@, ct, rs, t as int);
            }
        }
        proof {
            self.lemma_walk_end(visited@, ct, rs);
        }
        false
    }

    /// What a walk from `rs` keeps: `visited` marks allocations reached from `rs`; the
    /// marked ones on `stack` are still to be looked at; each other marked one, but
    /// `open`, is no array of arrays and all it references are marked.
    spec fn walk_inv(&self, visited: Seq<bool>, stack: Seq<usize>, ct: Seq<Class>, rs: Set<int>, open: int) -> bool {
        let w = self.current.memory@;
        let b0 = self.current.base as int;
        &&& visited.len() == w.len()
        &&& forall|t: int|
            0 <= t < visited.len() && #[trigger] visited[t] ==> self.tiles@.contains(t) && exists|k: nat|
                #[trigger] reach(w, b0, ct, rs, k).contains(t)
        &&& forall|k: int| 0 <= k < stack.len() ==> 0 <= #[trigger] stack[k] < visited.len() && visited[stack[k] as int]
        &&& stack.no_duplicates()
        &&& forall|t: int|
            0 <= t < visited.len() && #[trigger] visited[t] && !on_stack(stack, t) && t != open ==> !(hdr_kind(w[t]) == 1
                && w[t + 1] == 8) && forall|c: int| #[trigger] is_child(w, b0, ct, t, c) ==> 0 <= c < visited.len() && visited[c]
    }

    /// An allocation of the heap lies in its memory.
    proof fn lemma_tile_in_memory(&self, ct: Seq<Class>, t: int)
        requires
            self.wf(ct),
            self.tiles@.contains(t),
        ensures
            0 <= t,
            t + tile_words(self.current.memory@, t) <= self.current.memory@.len(),
            tile_words(self.current.memory@, t) >= 2,
            tile_ok(self.current.memory@, self.current.base as int, self.tiles@, ct, 0, t),
    {
        let w = self.current.memory@;
        lemma_tiling_bounds(w, self.current.used_words(), self.tiles@);
        let j = choose|j: int| 0 <= j < self.tiles@.len() && self.tiles@[j] == t;
        assert(tile_ok(w, self.current.base as int, self.tiles@, ct, 0, self.tiles@[j]));
    }

    /// A walk begins with nothing marked.
    proof fn lemma_walk_start(&self, visited: Seq<bool>, ct: Seq<Class>, rs: Set<int>)
        requires
            visited.len() == self.current.memory@.len(),
            forall|t: int| 0 <= t < visited.len() ==> !visited[t],
        ensures
            self.walk_inv(visited, Seq::empty(), ct, rs, -1),
    {
    }

    /// A marked allocation was reached.
    proof fn lemma_walk_visited(&self, visited: Seq<bool>, stack: Seq<usize>, ct: Seq<Class>, rs: Set<int>, open: int, t: int)
        requires
            self.walk_inv(visited, stack, ct, rs, open),
            0 <= t < visited.len(),
            visited[t],
        ensures
            self.tiles@.contains(t),
            exists|k: nat| #[trigger] reach(self.current.memory@, self.current.base as int, ct, rs, k).contains(t),
    {
    }

    /// Marking a reached allocation and putting it on the stack keeps the walk's invariant.
    proof fn lemma_walk_add(&self, v0: Seq<bool>, s0: Seq<usize>, ct: Seq<Class>, rs: Set<int>, c: int, k: nat)
        requires
            self.walk_inv(v0, s0, ct, rs, -1),
            0 <= c < v0.len(),
            !v0[c],
            self.tiles@.contains(c),
            c <= usize::MAX,
            reach(self.current.memory@, self.current.base as int, ct, rs, k).contains(c),
        ensures
            self.walk_inv(v0.update(c, true), s0.push(c as usize), ct, rs, -1),
            count_false(v0.update(c, true)) + 1 == count_false(v0),
    {
        self.lemma_walk_add_open(v0, s0, ct, rs, c, k, -1);
    }

    /// As `lemma_walk_add`, while allocation `open` is being looked at.
    proof fn lemma_walk_add_open(&self, v0: Seq<bool>, s0: Seq<usize>, ct: Seq<Class>, rs: Set<int>, c: int, k: nat, open: int)
        requires
            self.walk_inv(v0, s0, ct, rs, open),
            0 <= c < v0.len(),
            !v0[c],
            self.tiles@.contains(c),
            c <= usize::MAX,
            reach(self.current.memory@, self.current.base as int, ct, rs, k).contains(c),
        ensures
            self.walk_inv(v0.update(c, true), s0.push(c as usize), ct, rs, open),
            count_false(v0.update(c, true)) + 1 == count_false(v0),
    {
        let v1 = v0.update(c, true);
        let s1 = s0.push(c as usize);
        lemma_count_false_update(v0, c);
        assert(s1[s0.len() as int] as int == c);
        assert forall|kk: int| 0 <= kk < s1.len() implies 0 <= #[trigger] s1[kk] < v1.len() && v1[s1[kk] as int] by {
            if kk < s0.len() {
                assert(s1[kk] == s0[kk]);
                assert(v0[s0[kk] as int]);
            }
        }
        assert(s1.no_duplicates()) by {
            assert forall|a: int, b: int| 0 <= a < b < s1.len() implies s1[a] != s1[b] by {
                assert(s1[a] == s0[a]);
                assert(v0[s0[a] as int]);
                if b == s0.len() {
                    assert(s0[a] as int != c);
                } else {
                    assert(s1[b] == s0[b]);
                    assert(s0[a] != s0[b]);
                }
            }
        }
        let w = self.current.memory@;
        let b0 = self.current.base as int;
        assert forall|t: int| 0 <= t < v1.len() && #[trigger] v1[t] implies self.tiles@.contains(t) && exists|kk: nat|
            #[trigger] reach(w, b0, ct, rs, kk).contains(t) by {
            if t == c {
                assert(reach(w, b0, ct, rs, k).contains(t));
            } else {
                assert(v0[t]);
            }
        }
        assert forall|t: int|
            0 <= t < v1.len() && #[trigger] v1[t] && !on_stack(s1, t) && t != open implies !(hdr_kind(w[t]) == 1
                && w[t + 1] == 8) && forall|cc: int| #[trigger] is_child(w, b0, ct, t, cc) ==> 0 <= cc < v1.len() && v1[cc] by {
            assert(t != c) by {
                if t == c {
                    assert(0 <= s0.len() < s1.len() && s1[s0.len() as int] as int == t);
                    assert(on_stack(s1, t));
                }
            }
            assert(v0[t]);
            assert(!on_stack(s0, t)) by {
                if on_stack(s0, t) {
                    let kk = choose|kk: int| 0 <= kk < s0.len() && s0[kk] as int == t;
                    assert(s1[kk] == s0[kk]);
                }
            }
            assert forall|cc: int| #[trigger] is_child(w, b0, ct, t, cc) implies 0 <= cc < v1.len() && v1[cc] by {
                assert(v0[cc]);
            }
        }
    }

    /// Taking the last allocation off the stack leaves it open.
    proof fn lemma_walk_pop(&self, visited: Seq<bool>, popped: Seq<usize>, ct: Seq<Class>, rs: Set<int>, t: int)
        requires
            self.wf(ct),
            self.walk_inv(visited, popped.push(t as usize), ct, rs, -1),
            0 <= t <= usize::MAX,
        ensures
            self.walk_inv(visited, popped, ct, rs, t),
            0 <= t < visited.len(),
            visited[t],
            !on_stack(popped, t),
            self.tiles@.contains(t),
            exists|k: nat| #[trigger] reach(self.current.memory@, self.current.base as int, ct, rs, k).contains(t),
            t + tile_words(self.current.memory@, t) <= self.current.memory@.len(),
            tile_words(self.current.memory@, t) >= 2,
            tile_ok(self.current.memory@, self.current.base as int, self.tiles@, ct, 0, t),
    {
        let full = popped.push(t as usize);
        assert(full[popped.len() as int] == t as usize);
        assert forall|kk: int| 0 <= kk < popped.len() implies 0 <= #[trigger] popped[kk] < visited.len() && visited[popped[kk] as int] by {
            assert(full[kk] == popped[kk]);
        }
        assert(popped.no_duplicates()) by {
            assert forall|a: int, b: int| 0 <= a < b < popped.len() implies popped[a] != popped[b] by {
                assert(full[a] != full[b]);
            }
        }
        assert(!on_stack(popped, t)) by {
            if on_stack(popped, t) {
                let kk = choose|kk: int| 0 <= kk < popped.len() && popped[kk] as int == t;
                assert(full[kk] != full[popped.len() as int]);
            }
        }
        let w = self.current.memory@;
        let b0 = self.current.base as int;
        assert forall|u: int|
            0 <= u < visited.len() && #[trigger] visited[u] && !on_stack(popped, u) && u != t implies !(hdr_kind(w[u]) == 1
                && w[u + 1] == 8) && forall|cc: int| #[trigger] is_child(w, b0, ct, u, cc) ==> 0 <= cc < visited.len() && visited[cc] by {
            assert(!on_stack(full, u)) by {
                if on_stack(full, u) {
                    let kk = choose|kk: int| 0 <= kk < full.len() && full[kk] as int == u;
                    if kk < popped.len() {
                        assert(full[kk] == popped[kk]);
                    }
                }
            }
        }
        self.lemma_tile_in_memory(ct, t);
    }

    /// Once all that an open allocation references is marked, it is closed.
    proof fn lemma_walk_close(&self, visited: Seq<bool>, stack: Seq<usize>, ct: Seq<Class>, rs: Set<int>, t: int)
        requires
            self.walk_inv(visited, stack, ct, rs, t),
            !(hdr_kind(self.current.memory@[t]) == 1 && self.current.memory@[t + 1] == 8),
            forall|j: int|
                0 <= j < slot_count(self.current.memory@, t, ct) && slot_is_ref(self.current.memory@, t, ct, j)
                    && self.current.memory@[slot_index(self.current.memory@, t, j)] != 0 ==> visited[#[trigger] target(
                    self.current.base as int,
                    self.current.memory@[slot_index(self.current.memory@, t, j)],
                )],
            forall|c: int| #[trigger] is_child(self.current.memory@, self.current.base as int, ct, t, c) ==> 0 <= c < visited.len(),
        ensures
            self.walk_inv(visited, stack, ct, rs, -1),
    {
        let w = self.current.memory@;
        let b0 = self.current.base as int;
        assert forall|c: int| #[trigger] is_child(w, b0, ct, t, c) implies 0 <= c < visited.len() && visited[c] by {
            let j = choose|j: int|
                0 <= j < slot_count(w, t, ct) && slot_is_ref(w, t, ct, j) && w[slot_index(w, t, j)] != 0 && c
                    == #[trigger] target(b0, w[slot_index(w, t, j)]);
        }
    }

    /// A walk whose stack is empty has marked all that is reachable, and found no array
    /// of arrays among it.
    proof fn lemma_walk_end(&self, visited: Seq<bool>, ct: Seq<Class>, rs: Set<int>)
        requires
            self.walk_inv(visited, Seq::empty(), ct, rs, -1),
            forall|t: int| #[trigger] rs.contains(t) ==> 0 <= t < visited.len() && visited[t],
        ensures
            no_reachable_nested_arrays(self.current.memory@, self.current.base as int, self.tiles@, ct, rs),
    {
        let w = self.current.memory@;
        let b0 = self.current.base as int;
        let closed = Set::new(|t: int| 0 <= t < visited.len() && visited[t]);
        assert forall|t: int| #[trigger] self.tiles@.contains(t) && reachable(w, b0, ct, rs, t) implies !(hdr_kind(w[t]) == 1
            && w[t + 1] == 8) by {
            let k = choose|k: nat| #[trigger] reach(w, b0, ct, rs, k).contains(t);
            assert forall|u: int, c: int| closed.contains(u) && #[trigger] is_child(w, b0, ct, u, c) implies closed.contains(c) by {
                assert(!on_stack(Seq::<usize>::empty(), u));
            }
            lemma_reach_closed(w, b0, ct, rs, closed, k);
            assert(closed.contains(t));
            assert(!on_stack(Seq::<usize>::empty(), t));
        }
    }

    /// Loading more classes keeps a heap well formed: its objects are of classes loaded
    /// before.
    pub proof fn lemma_wf_more_classes(&self, t1: Seq<Class>, t2: Seq<Class>)
        requires
            self.wf(t1),
            t1.len() <= t2.len(),
            t2.subrange(0, t1.len() as int) == t1,
        ensures
            self.wf(t2),
    {
        let w = self.current.memory@;
        let base = self.current.base as int;
        let tiles = self.tiles@;
        assert forall|j: int| 0 <= j < tiles.len() implies tile_ok(w, base, tiles, t2, 0, #[trigger] tiles[j]) by {
            let t = tiles[j];
            assert(tile_ok(w, base, tiles, t1, 0, t));
            if hdr_kind(w[t]) == 0 {
                let id = w[t + 1] as int;
                assert(t2[id - 1] == t1[id - 1]);
                lemma_all_fields_prefix(t1, t2, id);
                assert(reference_mask(t2, id) =~= reference_mask(t1, id));
            }
            assert forall|i: int|
                0 <= i < slot_count(w, t, t2) && slot_is_ref(w, t, t2, i) implies ref_ok(
                base,
                tiles,
                w[#[trigger] slot_index(w, t, i)],
            ) by {
                assert(slot_count(w, t, t2) == slot_count(w, t, t1));
                assert(slot_is_ref(w, t, t2, i) == slot_is_ref(w, t, t1, i));
            }
        }
    }

    /// The free bytes of a well-formed heap are at most the capacity of its region.
    pub proof fn lemma_free_bytes(&self, classes: Seq<Class>)
        requires
            self.wf(classes),
        ensures
            0 <= self.free_bytes() <= self.region_capacity(),
    {
    }

    /// The objects that the roots point at are reachable from them.
    pub proof fn lemma_root_reachable(&self, classes: Seq<Class>, roots: Seq<AbstractObject>, i: int)
        requires
            0 <= i < roots.len(),
            self.is_object(roots[i]),
        ensures
            self.reachable_object(classes, roots, roots[i]),
    {
        let w = self.current.memory@;
        let base = self.current.base as int;
        let rs = root_tiles(base, roots);
        assert(rs.contains(self.tile_of(roots[i])));
        assert(reach(w, base, classes, rs, 0).contains(self.tile_of(roots[i])));
    }
}

/// A collection keeps every object that a root points at: its copy has the same header
/// (kind, size and identity hash code), and the same words but for the references, which
/// point at the copies of their objects.
pub proof fn law_roots_survive_collection(
    before: &ObjectAllocator,
    after: &ObjectAllocator,
    classes: Seq<Class>,
    roots: Seq<AbstractObject>,
    f: Map<AbstractObject, AbstractObject>,
    i: int,
)
    requires
        0 <= i < roots.len(),
        before.is_object(roots[i]),
        before.collected_into(after, classes, roots, f),
    ensures
        f.dom().contains(roots[i]),
        after.is_object(f[roots[i]]),
        after.object_words(f[roots[i]])[0] == before.object_words(roots[i])[0],
        relocated(before.object_words(roots[i]), after.object_words(f[roots[i]]), classes, f),
{
    before.lemma_root_reachable(classes, roots, i);
    let p = roots[i];
    assert(f.dom().contains(p));
    assert(after.is_object(f[p]) && relocated(before.object_words(p), after.object_words(f[p]), classes, f));
}

} // verus!
