//! Creating classes from class files whose superclass and interfaces are already
//! loaded, looking them up by name.
use vstd::prelude::*;

use crate::class::{Class, ClassFile, ClassId};
use crate::class_loading::referenced_names;
use crate::class_manager::{class_named, class_of, has_class, fields_fit, last_named, lemma_last_named_unique, ClassManager};
use crate::vm_error::VmError;

verus! {

/// Finds loaded classes by id and by name.
pub trait ClassResolver {
    fn find_class_by_id(&self, id: ClassId) -> Option<&Class>;

    fn find_class_by_name(&self, name: &str) -> Option<&Class>;
}

impl ClassResolver for ClassManager {
    /// The loaded class with the given id, if there is one.
    fn find_class_by_id(&self, id: ClassId) -> (res: Option<&Class>)
        ensures
            has_class(self.table(), id@ as int) ==> res == Some(&class_of(self.table(), id@ as int)),
            !has_class(self.table(), id@ as int) ==> res is None,
    {
        ClassManager::find_class_by_id(self, id)
    }

    /// The class loaded last with the given name, if there is one.
    fn find_class_by_name(&self, name: &str) -> (res: Option<&Class>)
        ensures
            match res {
                Some(c) => exists|i: int|
                    0 <= i < self.table().len() && self.table()[i] == *c && c.name@ == name@
                        && forall|j: int|
                        i < j < self.table().len() ==> self.table()[j].name@ != name@,
                None => forall|j: int|
                    0 <= j < self.table().len() ==> self.table()[j].name@ != name@,
            },
    {
        ClassManager::find_class_by_name(self, name)
    }
}

/// Whether the names that a class file refers to all name loaded classes of `t`.
pub open spec fn all_named(t: Seq<Class>, cf: ClassFile) -> bool {
    forall|i: int|
        0 <= i < referenced_names(cf).len() ==> #[trigger] class_named(t, referenced_names(cf)[i]) is Some
}

/// The first name that a class file refers to that no loaded class of `t` has.
pub open spec fn first_missing(t: Seq<Class>, cf: ClassFile) -> Seq<char> {
    let refs = referenced_names(cf);
    refs[choose|i: int|
        0 <= i < refs.len() && class_named(t, refs[i]) is None && forall|j: int|
            0 <= j < i ==> #[trigger] class_named(t, refs[j]) is Some]
}

/// Whether `c` is the class made from class file `cf` with the given id, its superclass
/// and its interfaces being the classes of `t` with their names.
pub open spec fn allocated_class(t: Seq<Class>, cf: ClassFile, id: ClassId, c: Class) -> bool {
    &&& c.id == id
    &&& c.name == cf.name
    &&& c.source_file == cf.source_file
    &&& c.superclass == match cf.superclass {
        Some(n) => Some(class_named(t, n@)->Some_0.id),
        None => None,
    }
    &&& c.interfaces@ == cf.interfaces@.map_values(|n: String| class_named(t, n@)->Some_0.id)
    &&& c.fields == cf.fields
    &&& c.methods == cf.methods
    &&& c.first_field_index == match cf.superclass {
        Some(n) => class_named(t, n@)->Some_0.num_total_fields as int,
        None => 0,
    }
    &&& c.num_total_fields == c.first_field_index + cf.fields.len()
}

/// Allocates classes, giving each the next id.
pub struct ClassAllocator {
    classes: Vec<Class>,
    next_id: u32,
}

impl ClassAllocator {
    pub fn new() -> (res: Self)
        ensures
            res.next_id() == 1,
            res.classes() == Seq::<Class>::empty(),
    {
        ClassAllocator { classes: Vec::new(), next_id: 1 }
    }

    /// The id that the next class gets.
    pub closed spec fn next_id(&self) -> u32 {
        self.next_id
    }

    /// The classes allocated so far.
    pub closed spec fn classes(&self) -> Seq<Class> {
        self.classes@
    }

    /// Creates the class of a class file, whose superclass and interfaces `resolver`
    /// must have loaded; it gets the next id.
    pub fn allocate(&mut self, class_file: ClassFile, resolver: &ClassManager) -> (res: Result<&Class, VmError>)
        requires
            old(self).next_id() < u32::MAX,
            resolver.wf(),
            fields_fit(resolver.table(), class_file.fields.len() as int),
        ensures
            all_named(resolver.table(), class_file) ==> (res matches Ok(c) && allocated_class(
                resolver.table(),
                class_file,
                ClassId::spec_new(old(self).next_id()),
                *c,
            ) && final(self).classes() == old(self).classes().push(*c)),
            !all_named(resolver.table(), class_file) ==> (res matches Err(
                VmError::ClassNotFoundException(n),
            ) && n@ == first_missing(resolver.table(), class_file)),
            final(self).next_id() == old(self).next_id() + 1,
    {
        let next_id = self.next_id;
        self.next_id = self.next_id + 1;
        let id = ClassId::new(next_id);
        proof {
            assert(id == ClassId::spec_new(next_id)) by {
                ClassId::lemma_spec_new(next_id);
                ClassId::lemma_view_injective(id, ClassId::spec_new(next_id));
            }
        }
        let class = Self::new_class(class_file, id, resolver)?;
        self.classes.push(class);
        Ok(&self.classes[self.classes.len() - 1])
    }

    fn new_class(class_file: ClassFile, id: ClassId, resolver: &ClassManager) -> (res: Result<Class, VmError>)
        requires
            resolver.wf(),
            fields_fit(resolver.table(), class_file.fields.len() as int),
        ensures
            all_named(resolver.table(), class_file) ==> (res matches Ok(c) && allocated_class(
                resolver.table(),
                class_file,
                id,
                c,
            )),
            !all_named(resolver.table(), class_file) ==> (res matches Err(
                VmError::ClassNotFoundException(n),
            ) && n@ == first_missing(resolver.table(), class_file)),
    {
        let ghost t = resolver.table();
        let ghost refs = referenced_names(class_file);
        let ghost k0: int = if class_file.superclass is Some { 1 } else { 0 };
        let superclass = match &class_file.superclass {
            Some(superclass_name) => match find_named(resolver, superclass_name) {
                Some(superclass) => Some(superclass),
                None => {
                    proof {
                        assert(refs[0] == superclass_name@);
                        lemma_first_missing(t, class_file, 0);
                    }
                    return Err(VmError::ClassNotFoundException(superclass_name.clone()));
                },
            },
            None => None,
        };
        let mut interfaces: Vec<ClassId> = Vec::new();
        let mut i: usize = 0;
        while i < class_file.interfaces.len()
            invariant
                i <= class_file.interfaces@.len(),
                t == resolver.table(),
                refs == referenced_names(class_file),
                k0 == if class_file.superclass is Some { 1int } else { 0 },
                interfaces@ == class_file.interfaces@.subrange(0, i as int).map_values(
                    |n: String| class_named(t, n@)->Some_0.id,
                ),
                forall|j: int| 0 <= j < k0 + i ==> #[trigger] class_named(t, refs[j]) is Some,
            decreases class_file.interfaces@.len() - i,
        {
            proof {
                assert(refs[k0 + i] == class_file.interfaces@[i as int]@);
            }
            match find_named(resolver, &class_file.interfaces[i]) {
                Some(interface) => interfaces.push(interface.id),
                None => {
                    proof {
                        lemma_first_missing(t, class_file, k0 + i);
                    }
                    return Err(VmError::ClassNotFoundException(class_file.interfaces[i].clone()));
                },
            }
            proof {
                assert(class_file.interfaces@.subrange(0, i + 1) =~= class_file.interfaces@.subrange(0, i as int).push(class_file.interfaces@[i as int]));
            }
            i = i + 1;
        }
        proof {
            assert(class_file.interfaces@.subrange(0, i as int) =~= class_file.interfaces@);
            assert forall|j: int| 0 <= j < refs.len() implies #[trigger] class_named(t, refs[j]) is Some by {
            }
        }
        let num_superclass_fields = match superclass {
            Some(superclass) => {
                proof {
                    let k = choose|k: int| last_named(t, superclass.name@, k) && t[k] == *superclass;
                    assert(superclass.num_total_fields + class_file.fields.len() <= usize::MAX);
                }
                superclass.num_total_fields
            },
            None => 0,
        };
        let num_this_class_fields = class_file.fields.len();
        Ok(
            Class {
                id,
                name: class_file.name,
                source_file: class_file.source_file,
                superclass: match superclass {
                    Some(superclass) => Some(superclass.id),
                    None => None,
                },
                interfaces,
                fields: class_file.fields,
                methods: class_file.methods,
                num_total_fields: num_superclass_fields + num_this_class_fields,
                first_field_index: num_superclass_fields,
            },
        )
    }
}

/// The class loaded last with the given name, if any.
fn find_named<'a>(resolver: &'a ClassManager, name: &String) -> (res: Option<&'a Class>)
    ensures
        res matches Some(c) ==> class_named(resolver.table(), name@) == Some(*c)
            && exists|k: int| last_named(resolver.table(), name@, k) && resolver.table()[k] == *c,
        res is None ==> class_named(resolver.table(), name@) is None,
{
    let res = resolver.find_class_by_name(name.as_str());
    proof {
        let t = resolver.table();
        match res {
            Some(c) => {
                let i = choose|i: int|
                    0 <= i < t.len() && t[i] == *c && c.name@ == name@ && forall|j: int|
                        i < j < t.len() ==> t[j].name@ != name@;
                assert(last_named(t, name@, i));
                let k = choose|k: int| last_named(t, name@, k);
                lemma_last_named_unique(t, name@, i, k);
            },
            None => {
                assert(!exists|i: int| last_named(t, name@, i));
            },
        }
    }
    res
}

/// A name that no class has, preceded only by names that classes have, is the first
/// missing one.
proof fn lemma_first_missing(t: Seq<Class>, cf: ClassFile, i: int)
    requires
        0 <= i < referenced_names(cf).len(),
        class_named(t, referenced_names(cf)[i]) is None,
        forall|j: int| 0 <= j < i ==> #[trigger] class_named(t, referenced_names(cf)[j]) is Some,
    ensures
        !all_named(t, cf),
        first_missing(t, cf) == referenced_names(cf)[i],
{
    let refs = referenced_names(cf);
    let k = choose|k: int|
        0 <= k < refs.len() && class_named(t, refs[k]) is None && forall|j: int|
            0 <= j < k ==> #[trigger] class_named(t, refs[j]) is Some;
    if k < i {
        assert(class_named(t, refs[k]) is Some);
    }
    if i < k {
        assert(class_named(t, refs[i]) is Some);
    }
}

} // verus!
