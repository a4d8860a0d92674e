//! Loading classes: a class can only be created once its superclass and its interfaces
//! have been resolved, which may in turn need their class files. The class manager
//! drives the resolution one class file at a time; whoever holds the class path reads
//! the class files it asks for.
use vstd::prelude::*;

use indexmap::IndexMap;

use crate::class::{Class, ClassFile, ClassId};
use crate::class_manager::{class_named, class_of, class_wf, fields_fit, has_class, last_named, names_unique, table_wf, ClassManager};
use crate::vm_error::VmError;

verus! {

#[verifier::external_type_specification]
#[verifier::external_body]
#[verifier::reject_recursive_types(K)]
#[verifier::reject_recursive_types(V)]
#[verifier::reject_recursive_types(S)]
pub struct ExIndexMap<K, V, S>(IndexMap<K, V, S>);

/// When a class is requested: whether it was already loaded, or whether it has just been
/// loaded, with the classes that now need to be initialized.
#[derive(Debug)]
pub enum ResolvedClass {
    AlreadyLoaded(ClassId),
    NewClass(ClassesToInitialize),
}

/// The classes to initialize after a class was loaded, base classes first; the loaded
/// class comes last.
#[derive(Debug)]
pub struct ClassesToInitialize {
    pub resolved_class: ClassId,
    pub to_initialize: Vec<ClassId>,
}

impl ResolvedClass {
    /// The class that was requested.
    pub open spec fn class(self) -> ClassId {
        match self {
            ResolvedClass::AlreadyLoaded(c) => c,
            ResolvedClass::NewClass(n) => n.resolved_class,
        }
    }

    /// The classes that need to be initialized.
    pub open spec fn initialize(self) -> Seq<ClassId> {
        match self {
            ResolvedClass::AlreadyLoaded(_) => Seq::empty(),
            ResolvedClass::NewClass(n) => n.to_initialize@,
        }
    }

    pub fn get_class(&self) -> (res: ClassId)
        ensures
            res == self.class(),
    {
        match self {
            ResolvedClass::AlreadyLoaded(class) => *class,
            ResolvedClass::NewClass(classes_to_initialize) => classes_to_initialize.resolved_class,
        }
    }
}

/// The names a map holds, with what they resolved to, in the order of their insertion.
pub uninterp spec fn resolved_entries(m: IndexMap<String, ResolvedClass>) -> Seq<(Seq<char>, ResolvedClass)>;

/// Whether `k` is one of the names of `e`.
pub open spec fn has_key(e: Seq<(Seq<char>, ResolvedClass)>, k: Seq<char>) -> bool {
    exists|i: int| 0 <= i < e.len() && #[trigger] e[i].0 == k
}

/// The position of name `k` in `e`.
pub open spec fn key_index(e: Seq<(Seq<char>, ResolvedClass)>, k: Seq<char>) -> int {
    choose|i: int| 0 <= i < e.len() && #[trigger] e[i].0 == k
}

/// Whether no name occurs twice in `e`.
pub open spec fn keys_distinct(e: Seq<(Seq<char>, ResolvedClass)>) -> bool {
    forall|i: int, j: int| 0 <= i < j < e.len() ==> #[trigger] e[i].0 != #[trigger] e[j].0
}

/// What name `k` resolved to.
pub open spec fn lookup(e: Seq<(Seq<char>, ResolvedClass)>, k: Seq<char>) -> ResolvedClass {
    e[key_index(e, k)].1
}

/// Creates an empty map: `IndexMap::new`.
#[verifier::external_body]
fn new_resolved_map() -> (m: IndexMap<String, ResolvedClass>)
    ensures
        resolved_entries(m) == Seq::<(Seq<char>, ResolvedClass)>::empty(),
{
    IndexMap::new()
}

/// `IndexMap::insert`: a name that is already there keeps its position and gets the new
/// value, and its previous value is returned; a new name goes last.
#[verifier::external_body]
fn insert_resolved(m: &mut IndexMap<String, ResolvedClass>, key: String, value: ResolvedClass) -> (old_value: Option<ResolvedClass>)
    ensures
        has_key(resolved_entries(*old(m)), key@) ==> resolved_entries(*final(m)) == resolved_entries(
            *old(m),
        ).update(key_index(resolved_entries(*old(m)), key@), (key@, value)) && old_value == Some(
            lookup(resolved_entries(*old(m)), key@),
        ),
        !has_key(resolved_entries(*old(m)), key@) ==> resolved_entries(*final(m)) == resolved_entries(
            *old(m),
        ).push((key@, value)) && old_value is None,
{
    m.insert(key, value)
}

/// `IndexMap::get`: what the map holds for the name, if anything.
#[verifier::external_body]
fn get_resolved<'a>(m: &'a IndexMap<String, ResolvedClass>, key: &str) -> (res: Option<&'a ResolvedClass>)
    ensures
        has_key(resolved_entries(*m), key@) ==> res == Some(&lookup(resolved_entries(*m), key@)),
        !has_key(resolved_entries(*m), key@) ==> res is None,
{
    m.get(key)
}

/// `IndexMap::values`: the values, in the order of their names.
#[verifier::external_body]
fn resolved_values<'a>(m: &'a IndexMap<String, ResolvedClass>) -> (res: Vec<&'a ResolvedClass>)
    ensures
        res@.len() == resolved_entries(*m).len(),
        forall|i: int| 0 <= i < res@.len() ==> *res@[i] == resolved_entries(*m)[i].1,
{
    m.values().collect()
}

/// The names of the classes that a class file refers to: its superclass first, then its
/// interfaces.
pub open spec fn referenced_names(cf: ClassFile) -> Seq<Seq<char>> {
    let s = match cf.superclass {
        Some(n) => seq![n@],
        None => Seq::empty(),
    };
    s + cf.interfaces@.map_values(|n: String| n@)
}

/// Name `k` among those that a class file refers to, if it refers to more than `k`.
fn referenced_name(cf: &ClassFile, k: usize) -> (res: Option<&String>)
    ensures
        k < referenced_names(*cf).len() ==> (res matches Some(n) && n@ == referenced_names(*cf)[k as int]),
        k >= referenced_names(*cf).len() ==> res is None,
{
    match &cf.superclass {
        Some(superclass) => {
            if k == 0 {
                Some(superclass)
            } else if k - 1 < cf.interfaces.len() {
                Some(&cf.interfaces[k - 1])
            } else {
                None
            }
        },
        None => {
            if k < cf.interfaces.len() {
                Some(&cf.interfaces[k])
            } else {
                None
            }
        },
    }
}

/// Whether `c` is the class made from class file `cf` with the given id, its superclass
/// and its interfaces being what their names resolved to in `e`.
pub open spec fn built_class(
    t: Seq<Class>,
    cf: ClassFile,
    id: ClassId,
    e: Seq<(Seq<char>, ResolvedClass)>,
    c: Class,
) -> bool {
    &&& c.id == id
    &&& c.name == cf.name
    &&& c.source_file == cf.source_file
    &&& c.superclass == match cf.superclass {
        Some(n) => Some(lookup(e, n@).class()),
        None => None,
    }
    &&& c.interfaces@ == cf.interfaces@.map_values(|n: String| lookup(e, n@).class())
    &&& c.fields == cf.fields
    &&& c.methods == cf.methods
    &&& c.first_field_index == match c.superclass {
        Some(s) => class_of(t, s@ as int).num_total_fields as int,
        None => 0,
    }
    &&& c.num_total_fields == c.first_field_index + cf.fields.len()
}

/// Whether class `c` was made from class file `cf`: it has its name, source file, fields
/// and methods, a superclass when the class file names one, as many interfaces, and the
/// fields of its superclass before its own.
pub open spec fn built_from(cf: ClassFile, c: Class) -> bool {
    &&& c.name == cf.name
    &&& c.source_file == cf.source_file
    &&& c.fields == cf.fields
    &&& c.methods == cf.methods
    &&& (c.superclass is Some) == (cf.superclass is Some)
    &&& c.interfaces.len() == cf.interfaces.len()
    &&& c.num_total_fields == c.first_field_index + cf.fields.len()
}

/// Whether the classes of `t` after those of `t0` were each made from one of the class
/// files `given`.
pub open spec fn new_classes_built(t0: Seq<Class>, t: Seq<Class>, given: Seq<ClassFile>) -> bool {
    forall|i: int| t0.len() <= i < t.len() ==> built_from_one_of(given, #[trigger] t[i])
}

/// Whether class `c` was made from one of the class files `given`.
pub open spec fn built_from_one_of(given: Seq<ClassFile>, c: Class) -> bool {
    exists|cf: ClassFile| #[trigger] given.contains(cf) && built_from(cf, c)
}

/// Classes made from given class files, added one batch after the other, were all made
/// from given class files.
proof fn lemma_new_classes_built_trans(t0: Seq<Class>, t1: Seq<Class>, t2: Seq<Class>, given: Seq<ClassFile>)
    requires
        t0.len() <= t1.len() <= t2.len(),
        t2.subrange(0, t1.len() as int) == t1,
        new_classes_built(t0, t1, given),
        new_classes_built(t1, t2, given),
    ensures
        new_classes_built(t0, t2, given),
{
    assert forall|i: int| t0.len() <= i < t2.len() implies built_from_one_of(given, #[trigger] t2[i]) by {
        if i < t1.len() {
            assert(t2[i] == t1[i]);
        }
    }
}

/// Whether `r` names classes of `t`.
pub open spec fn resolved_ok(t: Seq<Class>, r: ResolvedClass) -> bool {
    &&& has_class(t, r.class()@ as int)
    &&& forall|k: int| 0 <= k < r.initialize().len() ==> has_class(t, #[trigger] r.initialize()[k]@ as int)
}

/// Whether all the names of `refs` are in `e`, each resolved to classes of `t`.
pub open spec fn resolved_all(t: Seq<Class>, refs: Seq<Seq<char>>, e: Seq<(Seq<char>, ResolvedClass)>) -> bool {
    &&& forall|i: int| 0 <= i < refs.len() ==> has_key(e, #[trigger] refs[i])
    &&& forall|j: int| 0 <= j < e.len() ==> resolved_ok(t, #[trigger] e[j].1)
}

/// The classes to initialize that the values of `e` list, in order.
pub open spec fn collect_to_initialize(e: Seq<(Seq<char>, ResolvedClass)>) -> Seq<ClassId>
    decreases e.len(),
{
    if e.len() == 0 {
        Seq::empty()
    } else {
        collect_to_initialize(e.drop_last()) + e.last().1.initialize()
    }
}

/// Whether `ids` are the ids of the classes at positions `a` to `b` of a table, in
/// order: `a + 1` up to `b`.
pub open spec fn ids_between(ids: Seq<ClassId>, a: int, b: int) -> bool {
    &&& ids.len() == b - a
    &&& forall|k: int| 0 <= k < ids.len() ==> #[trigger] ids[k]@ == a + k + 1
}

/// Whether no class file of `given` refers to a name twice.
pub open spec fn refs_distinct(given: Seq<ClassFile>) -> bool {
    forall|i: int| 0 <= i < given.len() ==> referenced_names(#[trigger] given[i]).no_duplicates()
}

/// Whether the superclass and the interfaces of class `c` are classes of `t` with the
/// names that class file `cf` gives them.
pub open spec fn links_named(t: Seq<Class>, cf: ClassFile, c: Class) -> bool {
    &&& match c.superclass {
        Some(s) => cf.superclass is Some && has_class(t, s@ as int) && t[s@ - 1].name@
            == cf.superclass->Some_0@,
        None => cf.superclass is None,
    }
    &&& c.interfaces@.len() == cf.interfaces@.len()
    &&& forall|k: int|
        0 <= k < c.interfaces@.len() ==> has_class(t, #[trigger] c.interfaces@[k]@ as int) && t[c.interfaces@[k]@
            - 1].name@ == cf.interfaces@[k]@
}

/// Whether class `c` was made from one of the class files `given`, with its superclass
/// and interfaces being classes of `t` with the names that the class file gives them.
pub open spec fn class_linked(t: Seq<Class>, given: Seq<ClassFile>, c: Class) -> bool {
    exists|cf: ClassFile| #[trigger] given.contains(cf) && built_from(cf, c) && links_named(t, cf, c)
}

/// Whether each class of `t` after those of `t0` was made from one of the class files
/// `given`, with its superclass and interfaces being classes with the names that the
/// class file gives them.
pub open spec fn new_classes_linked(t0: Seq<Class>, t: Seq<Class>, given: Seq<ClassFile>) -> bool {
    forall|i: int| t0.len() <= i < t.len() ==> class_linked(t, given, #[trigger] t[i])
}

/// Links to classes of `t` are links to the same classes in a table that extends `t`.
proof fn lemma_links_grow(t: Seq<Class>, t2: Seq<Class>, cf: ClassFile, c: Class)
    requires
        links_named(t, cf, c),
        t.len() <= t2.len(),
        t2.subrange(0, t.len() as int) == t,
    ensures
        links_named(t2, cf, c),
{
    match c.superclass {
        Some(s) => {
            assert(t2[s@ - 1] == t2.subrange(0, t.len() as int)[s@ - 1]);
        },
        None => {},
    }
    assert forall|k: int| 0 <= k < c.interfaces@.len() implies has_class(t2, #[trigger] c.interfaces@[k]@ as int)
        && t2[c.interfaces@[k]@ - 1].name@ == cf.interfaces@[k]@ by {
        assert(t2[c.interfaces@[k]@ - 1] == t2.subrange(0, t.len() as int)[c.interfaces@[k]@ - 1]);
    }
}

/// Classes linked in one batch and then another were all linked.
proof fn lemma_new_classes_linked_trans(t0: Seq<Class>, t1: Seq<Class>, t2: Seq<Class>, given: Seq<ClassFile>)
    requires
        t0.len() <= t1.len() <= t2.len(),
        t2.subrange(0, t1.len() as int) == t1,
        new_classes_linked(t0, t1, given),
        new_classes_linked(t1, t2, given),
    ensures
        new_classes_linked(t0, t2, given),
{
    assert forall|i: int| t0.len() <= i < t2.len() implies class_linked(t2, given, #[trigger] t2[i]) by {
        if i < t1.len() {
            assert(t2[i] == t2.subrange(0, t1.len() as int)[i]);
            assert(t2[i] == t1[i]);
            assert(class_linked(t1, given, t1[i]));
            let cf = choose|cf: ClassFile| #[trigger] given.contains(cf) && built_from(cf, t1[i]) && links_named(t1, cf, t1[i]);
            lemma_links_grow(t1, t2, cf, t1[i]);
            assert(given.contains(cf) && built_from(cf, t2[i]) && links_named(t2, cf, t2[i]));
        }
    }
}

/// With no two classes of the same name, a class linked by names has, as its superclass,
/// the class `class_named` gives for the name the class file gives, and likewise for its
/// interfaces.
pub proof fn law_links_by_name(t: Seq<Class>, cf: ClassFile, c: Class)
    requires
        table_wf(t),
        names_unique(t),
        links_named(t, cf, c),
    ensures
        c.superclass matches Some(s) ==> class_named(t, cf.superclass->Some_0@) == Some(t[s@ - 1]),
        forall|k: int|
            0 <= k < c.interfaces@.len() ==> class_named(t, cf.interfaces@[k]@) == Some(t[#[trigger] c.interfaces@[k]@ - 1]),
{
    if let Some(s) = c.superclass {
        lemma_unique_last_named(t, s@ - 1);
    }
    assert forall|k: int| 0 <= k < c.interfaces@.len() implies class_named(t, cf.interfaces@[k]@) == Some(
        t[#[trigger] c.interfaces@[k]@ - 1],
    ) by {
        lemma_unique_last_named(t, c.interfaces@[k]@ - 1);
    }
}

/// With no two classes of the same name, each class is the one `class_named` gives.
proof fn lemma_unique_last_named(t: Seq<Class>, i: int)
    requires
        names_unique(t),
        0 <= i < t.len(),
    ensures
        class_named(t, t[i].name@) == Some(t[i]),
{
    let n = t[i].name@;
    assert(last_named(t, n, i));
    let j = choose|j: int| last_named(t, n, j);
    if j != i {
        if j < i {
            assert(t[j].name@ != t[i].name@);
        } else {
            assert(t[i].name@ != t[j].name@);
        }
    }
}

impl ClassManager {
    /// Creates the class of a class file, whose superclass and interfaces have been
    /// resolved as `resolved_classes` says.
    fn new_class(
        &self,
        class_file: ClassFile,
        id: ClassId,
        resolved_classes: &IndexMap<String, ResolvedClass>,
    ) -> (res: Result<Class, VmError>)
        requires
            self.wf(),
            resolved_all(self.table(), referenced_names(class_file), resolved_entries(*resolved_classes)),
            fields_fit(self.table(), class_file.fields.len() as int),
        ensures
            res matches Ok(c) && built_class(self.table(), class_file, id, resolved_entries(*resolved_classes), c),
    {
        let ghost e = resolved_entries(*resolved_classes);
        let ghost refs = referenced_names(class_file);
        let superclass = match &class_file.superclass {
            Some(superclass_name) => {
                proof {
                    assert(refs[0] == superclass_name@);
                }
                Some(get_resolved(resolved_classes, superclass_name).unwrap().get_class())
            },
            None => None,
        };
        let ghost k0: int = if class_file.superclass is Some { 1 } else { 0 };
        let mut interfaces: Vec<ClassId> = Vec::new();
        let mut i: usize = 0;
        while i < class_file.interfaces.len()
            invariant
                i <= class_file.interfaces@.len(),
                interfaces@ == class_file.interfaces@.subrange(0, i as int).map_values(
                    |n: String| lookup(e, n@).class(),
                ),
                e == resolved_entries(*resolved_classes),
                refs == referenced_names(class_file),
                k0 == if class_file.superclass is Some { 1int } else { 0 },
                resolved_all(self.table(), refs, e),
            decreases class_file.interfaces@.len() - i,
        {
            proof {
                assert(refs[k0 + i] == class_file.interfaces@[i as int]@);
                assert(has_key(e, refs[k0 + i]));
            }
            let interface = get_resolved(resolved_classes, &class_file.interfaces[i]).unwrap().get_class();
            interfaces.push(interface);
            proof {
                assert(class_file.interfaces@.subrange(0, i + 1) =~= class_file.interfaces@.subrange(0, i as int).push(class_file.interfaces@[i as int]));
            }
            i = i + 1;
        }
        proof {
            assert(class_file.interfaces@.subrange(0, i as int) =~= class_file.interfaces@);
        }
        let num_superclass_fields = match superclass {
            Some(superclass) => {
                proof {
                    let j = key_index(e, refs[0]);
                    assert(resolved_ok(self.table(), e[j].1));
                }
                self.find_class_by_id(superclass).unwrap().num_total_fields
            },
            None => 0,
        };
        let num_this_class_fields = class_file.fields.len();
        proof {
            if let Some(s) = superclass {
                let j = key_index(e, refs[0]);
                assert(resolved_ok(self.table(), e[j].1));
                assert(self.table()[s@ - 1].num_total_fields + class_file.fields.len() <= usize::MAX);
            }
        }
        Ok(
            Class {
                id,
                name: class_file.name,
                source_file: class_file.source_file,
                superclass,
                interfaces,
                fields: class_file.fields,
                methods: class_file.methods,
                num_total_fields: num_superclass_fields + num_this_class_fields,
                first_field_index: num_superclass_fields,
            },
        )
    }

    /// Creates and registers the class of a class file, whose superclass and interfaces
    /// have been resolved as `referenced_classes` says; the classes to initialize are
    /// those of the referenced classes that were loaded with it, then the new class.
    fn allocate(
        &mut self,
        class_file: ClassFile,
        referenced_classes: IndexMap<String, ResolvedClass>,
    ) -> (res: Result<ClassesToInitialize, VmError>)
        requires
            old(self).wf(),
            resolved_all(old(self).table(), referenced_names(class_file), resolved_entries(referenced_classes)),
            fields_fit(old(self).table(), class_file.fields.len() as int),
            old(self).table().len() + 1 < u32::MAX,
        ensures
            final(self).wf(),
            final(self).table().len() == old(self).table().len() + 1,
            final(self).table().subrange(0, old(self).table().len() as int) == old(self).table(),
            built_class(
                old(self).table(),
                class_file,
                ClassId::spec_new((old(self).table().len() + 1) as u32),
                resolved_entries(referenced_classes),
                final(self).table().last(),
            ),
            res matches Ok(cti) && cti.resolved_class@ == final(self).table().len()
                && cti.to_initialize@ == collect_to_initialize(resolved_entries(referenced_classes)).push(
                cti.resolved_class,
            ),
    {
        let ghost t = self.table();
        let ghost e = resolved_entries(referenced_classes);
        let id = self.next_id();
        proof {
            ClassId::lemma_spec_new((t.len() + 1) as u32);
            assert(id == ClassId::spec_new((t.len() + 1) as u32)) by {
                ClassId::lemma_view_injective(id, ClassId::spec_new((t.len() + 1) as u32));
            }
        }
        let class = self.new_class(class_file, id, &referenced_classes)?;
        proof {
            self.lemma_built_class_wf(class_file, id, e, class);
        }
        self.register_loaded_class(class);
        let values = resolved_values(&referenced_classes);
        let mut classes_to_init: Vec<ClassId> = Vec::new();
        let mut i: usize = 0;
        while i < values.len()
            invariant
                i <= values@.len(),
                values@.len() == e.len(),
                forall|j: int| 0 <= j < values@.len() ==> *values@[j] == e[j].1,
                classes_to_init@ == collect_to_initialize(e.subrange(0, i as int)),
            decreases values@.len() - i,
        {
            let ghost before = classes_to_init@;
            if let ResolvedClass::NewClass(new_class) = values[i] {
                let mut k: usize = 0;
                while k < new_class.to_initialize.len()
                    invariant
                        k <= new_class.to_initialize@.len(),
                        classes_to_init@ == before + new_class.to_initialize@.subrange(0, k as int),
                    decreases new_class.to_initialize@.len() - k,
                {
                    classes_to_init.push(new_class.to_initialize[k]);
                    proof {
                        assert(new_class.to_initialize@.subrange(0, k + 1) =~= new_class.to_initialize@.subrange(0, k as int).push(new_class.to_initialize@[k as int]));
                    }
                    k = k + 1;
                }
                proof {
                    assert(new_class.to_initialize@.subrange(0, k as int) =~= new_class.to_initialize@);
                }
            }
            proof {
                let e2 = e.subrange(0, i + 1);
                assert(e2.drop_last() =~= e.subrange(0, i as int));
                assert(e2.last() == e[i as int]);
                if !(values@[i as int] is NewClass) {
                    assert(classes_to_init@ =~= before + Seq::<ClassId>::empty());
                }
            }
            i = i + 1;
        }
        proof {
            assert(e.subrange(0, i as int) =~= e);
            assert(self.table().subrange(0, t.len() as int) =~= t);
        }
        classes_to_init.push(id);
        Ok(ClassesToInitialize { resolved_class: id, to_initialize: classes_to_init })
    }

    /// A class built from resolved classes fits in the table of classes.
    proof fn lemma_built_class_wf(
        &self,
        cf: ClassFile,
        id: ClassId,
        e: Seq<(Seq<char>, ResolvedClass)>,
        c: Class,
    )
        requires
            self.wf(),
            id@ == self.table().len() + 1,
            resolved_all(self.table(), referenced_names(cf), e),
            built_class(self.table(), cf, id, e, c),
        ensures
            class_wf(self.table().push(c), self.table().len() as int),
    {
        let t = self.table();
        let t2 = t.push(c);
        let refs = referenced_names(cf);
        let k0: int = if cf.superclass is Some { 1 } else { 0 };
        if let Some(n) = cf.superclass {
            assert(refs[0] == n@);
            let j = key_index(e, n@);
            assert(resolved_ok(t, e[j].1));
        }
        assert forall|k: int| 0 <= k < c.interfaces.len() implies 1 <= #[trigger] c.interfaces@[k]@ <= t.len() by {
            assert(refs[k0 + k] == cf.interfaces@[k]@);
            assert(has_key(e, refs[k0 + k]));
            let j = key_index(e, cf.interfaces@[k]@);
            assert(resolved_ok(t, e[j].1));
        }
        match c.superclass {
            Some(s) => {
                assert(t2[s@ - 1] == t[s@ - 1]);
            },
            None => {},
        }
    }
}

/// A class file whose superclass and interfaces are being resolved.
pub struct PendingClass {
    class_file: ClassFile,
    /// What the referenced names resolved to so far
    resolved: IndexMap<String, ResolvedClass>,
    /// How many of the referenced names have been resolved
    next: usize,
    /// The number of loaded classes when the class file was given
    start: Ghost<int>,
}

/// The class files being loaded: each one but the last is waiting for the class whose
/// name it refers to next, which the following one is.
pub struct ClassResolution {
    pending: Vec<PendingClass>,
    /// The class files given to the resolution so far
    given: Ghost<Seq<ClassFile>>,
    /// Whether each class file given for a name that was asked for has that name
    named: Ghost<bool>,
}

/// What the resolution of a class needs, or gives.
pub enum ResolutionStep {
    /// The class file of the class with this name is needed to go on
    NeedClassFile(String),
    /// The class that was requested, loaded
    Resolved(ResolvedClass),
}

/// Whether the names resolved so far for a pending class file are the first `next` it
/// refers to, each resolved to classes of `t`.
spec fn pending_ok(p: PendingClass, t: Seq<Class>) -> bool {
    let e = resolved_entries(p.resolved);
    let refs = referenced_names(p.class_file);
    &&& p.next <= refs.len()
    &&& refs.len() < usize::MAX
    &&& keys_distinct(e)
    &&& forall|k: Seq<char>|
        has_key(e, k) <==> exists|j: int| 0 <= j < p.next && #[trigger] refs[j] == k
    &&& forall|j: int| 0 <= j < e.len() ==> resolved_ok(t, #[trigger] e[j].1)
}

/// The number of fields declared by the pending class files.
spec fn pending_fields(ps: Seq<PendingClass>) -> int
    decreases ps.len(),
{
    if ps.len() == 0 {
        0
    } else {
        pending_fields(ps.drop_last()) + ps.last().class_file.fields.len()
    }
}

/// The resolution steps still to make for the pending class files.
spec fn pending_work(ps: Seq<PendingClass>) -> int
    decreases ps.len(),
{
    if ps.len() == 0 {
        0
    } else {
        pending_work(ps.drop_last()) + referenced_names(ps.last().class_file).len() - ps.last().next
            + 1
    }
}

proof fn lemma_pending_sums_nonneg(ps: Seq<PendingClass>)
    requires
        forall|i: int| 0 <= i < ps.len() ==> #[trigger] ps[i].next <= referenced_names(ps[i].class_file).len(),
    ensures
        pending_fields(ps) >= 0,
        pending_work(ps) >= 0,
    decreases ps.len(),
{
    if ps.len() > 0 {
        lemma_pending_sums_nonneg(ps.drop_last());
    }
}

impl ClassResolution {
    /// A resolution with no class file pending.
    pub fn new() -> (res: Self)
        ensures
            res.depth() == 0,
            forall|t: Seq<Class>| res.wf(t),
            res.fields() == 0,
            res.given() == Seq::<ClassFile>::empty(),
            res.answers_named(),
    {
        let res = ClassResolution { pending: Vec::new(), given: Ghost(Seq::empty()), named: Ghost(true) };
        proof {
            assert forall|t: Seq<Class>| res.wf(t) by {
                lemma_chain_empty(t, Seq::empty(), true);
                assert(res.pending@ =~= Seq::<PendingClass>::empty());
            }
        }
        res
    }

    pub closed spec fn depth(&self) -> nat {
        self.pending@.len()
    }

    /// The name of the class file whose resolution started the pending ones.
    pub closed spec fn bottom_name(&self) -> Seq<char> {
        self.pending@[0].class_file.name@
    }

    /// The name that the last pending class file refers to next.
    pub closed spec fn waiting_for(&self) -> Seq<char> {
        let p = self.pending@.last();
        referenced_names(p.class_file)[p.next as int]
    }

    /// The number of fields of the pending class files.
    pub closed spec fn fields(&self) -> int {
        pending_fields(self.pending@)
    }

    /// The class files given to the resolution so far, in order.
    pub closed spec fn given(&self) -> Seq<ClassFile> {
        self.given@
    }

    /// Whether each class file given for a name that was asked for has that name.
    pub closed spec fn answers_named(&self) -> bool {
        self.named@
    }

    /// The number of loaded classes when the pending resolution began.
    pub closed spec fn start(&self) -> int {
        self.pending@[0].start@
    }

    /// Whether the pending class files are consistent with the classes of `t`.
    pub closed spec fn wf(&self, t: Seq<Class>) -> bool {
        &&& chain_ok(self.pending@, t, self.given@, self.named@)
        &&& forall|i: int| 0 <= i < self.pending@.len() ==> pending_ok(#[trigger] self.pending@[i], t)
        &&& forall|i: int| 0 <= i < self.pending@.len() ==> self.given@.contains(#[trigger] self.pending@[i].class_file)
        &&& forall|i: int|
            0 <= i < self.pending@.len() - 1 ==> #[trigger] self.pending@[i].next < referenced_names(
                self.pending@[i].class_file,
            ).len()
    }
}

/// Where the classes loaded for pending class file `i` end: where those of the next one
/// begin, or the end of the table for the last one.
spec fn next_start(ps: Seq<PendingClass>, i: int, t: Seq<Class>) -> int {
    if i + 1 < ps.len() {
        ps[i + 1].start@
    } else {
        t.len() as int
    }
}

/// How the pending class files relate to the classes loaded for them: each began after
/// the one below it; when no class file refers to a name twice, the classes to initialize
/// collected for each are those loaded since it was given; and when each class file given
/// has the name that was asked for, each name resolved so far leads to a class with that
/// name, and each pending class file has the name that the one below it waits for.
#[verifier::opaque]
spec fn chain_ok(ps: Seq<PendingClass>, t: Seq<Class>, given: Seq<ClassFile>, named: bool) -> bool {
    &&& forall|i: int| 0 <= i < ps.len() ==> 0 <= #[trigger] ps[i].start@ <= next_start(ps, i, t)
    &&& refs_distinct(given) ==> forall|i: int|
        0 <= i < ps.len() ==> ids_between(
            collect_to_initialize(resolved_entries(#[trigger] ps[i].resolved)),
            ps[i].start@,
            next_start(ps, i, t),
        )
    &&& named ==> forall|i: int, j: int|
        0 <= i < ps.len() && 0 <= j < resolved_entries(ps[i].resolved).len() ==> t[#[trigger] resolved_entries(
            #[trigger] ps[i].resolved,
        )[j].1.class()@ - 1].name@ == resolved_entries(ps[i].resolved)[j].0
    &&& named ==> forall|i: int|
        0 <= i < ps.len() - 1 ==> #[trigger] ps[i + 1].class_file.name@ == referenced_names(ps[i].class_file)[ps[i].next as int]
}

/// The classes to initialize of entries with one more at the end.
proof fn lemma_collect_push(e: Seq<(Seq<char>, ResolvedClass)>, x: (Seq<char>, ResolvedClass))
    ensures
        collect_to_initialize(e.push(x)) == collect_to_initialize(e) + x.1.initialize(),
{
    assert(e.push(x).drop_last() =~= e);
}

/// Consecutive runs of ids make one run.
proof fn lemma_ids_concat(ids1: Seq<ClassId>, ids2: Seq<ClassId>, a: int, m: int, b: int)
    requires
        ids_between(ids1, a, m),
        ids_between(ids2, m, b),
    ensures
        ids_between(ids1 + ids2, a, b),
{
    let ids = ids1 + ids2;
    assert forall|k: int| 0 <= k < ids.len() implies #[trigger] ids[k]@ == a + k + 1 by {
        if k >= ids1.len() {
            assert(ids[k] == ids2[k - ids1.len()]);
        }
    }
}

/// A name that a class file refers to before the `n`-th, again at `n`, is a name it
/// refers to twice.
proof fn lemma_repeated_ref(refs: Seq<Seq<char>>, n: int, j: int)
    requires
        0 <= j < n < refs.len(),
        refs[j] == refs[n],
    ensures
        !refs.no_duplicates(),
{
}

/// Replacing the last pending class file by one with the same class file and beginning,
/// whose resolved names are consistent, keeps the chain consistent.
proof fn lemma_chain_top(ps: Seq<PendingClass>, top2: PendingClass, t: Seq<Class>, given: Seq<ClassFile>, named: bool)
    requires
        chain_ok(ps, t, given, named),
        ps.len() > 0,
        top2.class_file == ps.last().class_file,
        top2.start == ps.last().start,
        refs_distinct(given) ==> ids_between(
            collect_to_initialize(resolved_entries(top2.resolved)),
            top2.start@,
            t.len() as int,
        ),
        named ==> forall|j: int|
            0 <= j < resolved_entries(top2.resolved).len() ==> t[#[trigger] resolved_entries(top2.resolved)[j].1.class()@
                - 1].name@ == resolved_entries(top2.resolved)[j].0,
    ensures
        chain_ok(ps.drop_last().push(top2), t, given, named),
{
    reveal(chain_ok);
    let ps2 = ps.drop_last().push(top2);
    let last = ps.len() - 1;
    assert forall|i: int| 0 <= i < ps2.len() implies 0 <= #[trigger] ps2[i].start@ <= next_start(ps2, i, t) by {
        if i < last {
            assert(ps2[i] == ps[i]);
            assert(0 <= ps[i].start@ <= next_start(ps, i, t));
            if i + 1 < last {
                assert(ps2[i + 1] == ps[i + 1]);
            }
        } else {
            assert(0 <= ps[last].start@ <= next_start(ps, last, t));
        }
    }
    if refs_distinct(given) {
        assert forall|i: int| 0 <= i < ps2.len() implies ids_between(
            collect_to_initialize(resolved_entries(#[trigger] ps2[i].resolved)),
            ps2[i].start@,
            next_start(ps2, i, t),
        ) by {
            if i < last {
                assert(ps2[i] == ps[i]);
                assert(ids_between(collect_to_initialize(resolved_entries(ps[i].resolved)), ps[i].start@, next_start(ps, i, t)));
                if i + 1 < last {
                    assert(ps2[i + 1] == ps[i + 1]);
                }
            }
        }
    }
    if named {
        assert forall|i: int, j: int|
            0 <= i < ps2.len() && 0 <= j < resolved_entries(ps2[i].resolved).len() implies t[#[trigger] resolved_entries(
                #[trigger] ps2[i].resolved,
            )[j].1.class()@ - 1].name@ == resolved_entries(ps2[i].resolved)[j].0 by {
            if i < last {
                assert(ps2[i] == ps[i]);
            }
        }
        assert forall|i: int|
            0 <= i < ps2.len() - 1 implies #[trigger] ps2[i + 1].class_file.name@ == referenced_names(ps2[i].class_file)[ps2[i].next as int] by {
            assert(ps2[i] == ps[i]);
            assert(ps[i + 1].class_file.name@ == referenced_names(ps[i].class_file)[ps[i].next as int]);
            if i + 1 < last {
                assert(ps2[i + 1] == ps[i + 1]);
            }
        }
    }
}

/// The entries after `name` was recorded as resolved to `v`.
spec fn recorded(e: Seq<(Seq<char>, ResolvedClass)>, name: Seq<char>, v: ResolvedClass) -> Seq<(Seq<char>, ResolvedClass)> {
    if has_key(e, name) {
        e.update(key_index(e, name), (name, v))
    } else {
        e.push((name, v))
    }
}

/// Recording a name resolved to a class of `t` named so keeps every name leading to a
/// class with that name.
proof fn lemma_recorded_named(e: Seq<(Seq<char>, ResolvedClass)>, name: Seq<char>, v: ResolvedClass, t: Seq<Class>)
    requires
        forall|j: int| 0 <= j < e.len() ==> t[#[trigger] e[j].1.class()@ - 1].name@ == e[j].0,
        t[v.class()@ - 1].name@ == name,
    ensures
        forall|j: int|
            0 <= j < recorded(e, name, v).len() ==> t[#[trigger] recorded(e, name, v)[j].1.class()@ - 1].name@
                == recorded(e, name, v)[j].0,
{
    let e2 = recorded(e, name, v);
    assert forall|j: int| 0 <= j < e2.len() implies t[#[trigger] e2[j].1.class()@ - 1].name@ == e2[j].0 by {
        if has_key(e, name) {
            if j != key_index(e, name) {
                assert(e2[j] == e[j]);
            }
        } else {
            if j < e.len() {
                assert(e2[j] == e[j]);
            }
        }
    }
}

/// When the class file waiting for the one just loaded records it, the chain of pending
/// class files, with the table grown by the new class, stays consistent.
proof fn lemma_chain_complete(
    ps: Seq<PendingClass>,
    parent2: PendingClass,
    v: ResolvedClass,
    name: Seq<char>,
    t: Seq<Class>,
    t2: Seq<Class>,
    given: Seq<ClassFile>,
    named: bool,
)
    requires
        chain_ok(ps, t, given, named),
        ps.len() >= 2,
        parent2.class_file == ps[ps.len() - 2].class_file,
        parent2.start == ps[ps.len() - 2].start,
        parent2.next == ps[ps.len() - 2].next + 1,
        name == referenced_names(ps[ps.len() - 2].class_file)[ps[ps.len() - 2].next as int],
        resolved_entries(parent2.resolved) == recorded(resolved_entries(ps[ps.len() - 2].resolved), name, v),
        t2.len() == t.len() + 1,
        t2.subrange(0, t.len() as int) == t,
        v.class()@ == t2.len(),
        t2.last().name@ == ps.last().class_file.name@,
        forall|i: int, j: int|
            0 <= i < ps.len() && 0 <= j < resolved_entries(ps[i].resolved).len() ==> has_class(
                t,
                #[trigger] resolved_entries(#[trigger] ps[i].resolved)[j].1.class()@ as int,
            ),
        refs_distinct(given) ==> ids_between(v.initialize(), ps.last().start@, t2.len() as int) && !has_key(
            resolved_entries(ps[ps.len() - 2].resolved),
            name,
        ),
    ensures
        chain_ok(ps.drop_last().drop_last().push(parent2), t2, given, named),
{
    reveal(chain_ok);
    let n = ps.len();
    let rest = ps.drop_last().drop_last();
    let ps2 = rest.push(parent2);
    let p0 = ps[n - 2];
    let top = ps[n - 1];
    assert(0 <= top.start@ <= next_start(ps, n - 1, t));
    assert(0 <= p0.start@ <= next_start(ps, n - 2, t));
    assert forall|i: int| 0 <= i < ps2.len() implies 0 <= #[trigger] ps2[i].start@ <= next_start(ps2, i, t2) by {
        if i < n - 2 {
            assert(ps2[i] == ps[i]);
            assert(0 <= ps[i].start@ <= next_start(ps, i, t));
            if i + 1 < n - 2 {
                assert(ps2[i + 1] == ps[i + 1]);
            } else {
                assert(ps2[i + 1] == parent2);
            }
        }
    }
    if refs_distinct(given) {
        assert forall|i: int| 0 <= i < ps2.len() implies ids_between(
            collect_to_initialize(resolved_entries(#[trigger] ps2[i].resolved)),
            ps2[i].start@,
            next_start(ps2, i, t2),
        ) by {
            if i < n - 2 {
                assert(ps2[i] == ps[i]);
                assert(ids_between(collect_to_initialize(resolved_entries(ps[i].resolved)), ps[i].start@, next_start(ps, i, t)));
                if i + 1 < n - 2 {
                    assert(ps2[i + 1] == ps[i + 1]);
                } else {
                    assert(ps2[i + 1] == parent2);
                }
            } else {
                let e0 = resolved_entries(p0.resolved);
                assert(ids_between(collect_to_initialize(e0), p0.start@, next_start(ps, n - 2, t)));
                lemma_collect_push(e0, (name, v));
                lemma_ids_concat(collect_to_initialize(e0), v.initialize(), p0.start@, top.start@, t2.len() as int);
            }
        }
    }
    if named {
        assert(top.class_file.name@ == referenced_names(p0.class_file)[p0.next as int]);
        assert(t2[v.class()@ - 1].name@ == name);
        assert forall|i: int, j: int|
            0 <= i < ps2.len() && 0 <= j < resolved_entries(ps2[i].resolved).len() implies t2[#[trigger] resolved_entries(
                #[trigger] ps2[i].resolved,
            )[j].1.class()@ - 1].name@ == resolved_entries(ps2[i].resolved)[j].0 by {
            if i < n - 2 {
                assert(ps2[i] == ps[i]);
                let x = resolved_entries(ps[i].resolved)[j].1.class()@;
                assert(has_class(t, x as int));
                assert(t2[x - 1] == t2.subrange(0, t.len() as int)[x - 1]);
            } else {
                let e0 = resolved_entries(p0.resolved);
                assert forall|k: int| 0 <= k < e0.len() implies t2[#[trigger] e0[k].1.class()@ - 1].name@ == e0[k].0 by {
                    let x = e0[k].1.class()@;
                    assert(has_class(t, x as int));
                    assert(t2[x - 1] == t2.subrange(0, t.len() as int)[x - 1]);
                }
                lemma_recorded_named(e0, name, v, t2);
            }
        }
        assert forall|i: int|
            0 <= i < ps2.len() - 1 implies #[trigger] ps2[i + 1].class_file.name@ == referenced_names(ps2[i].class_file)[ps2[i].next as int] by {
            assert(ps2[i] == ps[i]);
            assert(ps[i + 1].class_file.name@ == referenced_names(ps[i].class_file)[ps[i].next as int]);
            if i + 1 < n - 2 {
                assert(ps2[i + 1] == ps[i + 1]);
            } else {
                assert(ps2[i + 1] == parent2);
            }
        }
    }
}

/// What the chain tells of its last pending class file.
proof fn lemma_chain_last(ps: Seq<PendingClass>, t: Seq<Class>, given: Seq<ClassFile>, named: bool)
    requires
        chain_ok(ps, t, given, named),
        ps.len() > 0,
    ensures
        0 <= ps.last().start@ <= t.len(),
        ps.len() >= 2 ==> ps[ps.len() - 2].start@ <= ps.last().start@,
        refs_distinct(given) ==> ids_between(
            collect_to_initialize(resolved_entries(ps.last().resolved)),
            ps.last().start@,
            t.len() as int,
        ),
        named ==> forall|j: int|
            0 <= j < resolved_entries(ps.last().resolved).len() ==> t[#[trigger] resolved_entries(ps.last().resolved)[j].1.class()@
                - 1].name@ == resolved_entries(ps.last().resolved)[j].0,
        named && ps.len() >= 2 ==> ps.last().class_file.name@ == referenced_names(ps[ps.len() - 2].class_file)[ps[ps.len()
            - 2].next as int],
{
    reveal(chain_ok);
    let n = ps.len();
    assert(0 <= ps[n - 1].start@ <= next_start(ps, n - 1, t));
    if n >= 2 {
        assert(0 <= ps[n - 2].start@ <= next_start(ps, n - 2, t));
    }
    if named {
        assert forall|j: int|
            0 <= j < resolved_entries(ps.last().resolved).len() implies t[#[trigger] resolved_entries(ps.last().resolved)[j].1.class()@
                - 1].name@ == resolved_entries(ps.last().resolved)[j].0 by {
            assert(ps[n - 1] == ps.last());
        }
        if n >= 2 {
            assert(ps[n - 2 + 1].class_file.name@ == referenced_names(ps[n - 2].class_file)[ps[n - 2].next as int]);
        }
    }
}

/// Recording that the name the last pending class file waits for is a loaded class
/// keeps the chain consistent.
proof fn lemma_chain_already(
    ps: Seq<PendingClass>,
    top: PendingClass,
    name: Seq<char>,
    id: ClassId,
    t: Seq<Class>,
    given: Seq<ClassFile>,
    named: bool,
)
    requires
        chain_ok(ps, t, given, named),
        ps.len() > 0,
        given.contains(ps.last().class_file),
        top.class_file == ps.last().class_file,
        top.start == ps.last().start,
        ps.last().next < referenced_names(ps.last().class_file).len(),
        name == referenced_names(ps.last().class_file)[ps.last().next as int],
        forall|k: Seq<char>|
            has_key(resolved_entries(ps.last().resolved), k) <==> exists|j: int|
                0 <= j < ps.last().next && #[trigger] referenced_names(ps.last().class_file)[j] == k,
        resolved_entries(top.resolved) == recorded(resolved_entries(ps.last().resolved), name, ResolvedClass::AlreadyLoaded(id)),
        t[id@ - 1].name@ == name,
    ensures
        chain_ok(ps.drop_last().push(top), t, given, named),
{
    lemma_chain_last(ps, t, given, named);
    let e0 = resolved_entries(ps.last().resolved);
    let refs = referenced_names(ps.last().class_file);
    if refs_distinct(given) {
        let gi = choose|gi: int| 0 <= gi < given.len() && given[gi] == ps.last().class_file;
        assert(refs.no_duplicates()) by {
            assert(referenced_names(given[gi]).no_duplicates());
        }
        if has_key(e0, name) {
            let j = choose|j: int| 0 <= j < ps.last().next && #[trigger] refs[j] == name;
            lemma_repeated_ref(refs, ps.last().next as int, j);
        }
        lemma_collect_push(e0, (name, ResolvedClass::AlreadyLoaded(id)));
        assert(collect_to_initialize(resolved_entries(top.resolved)) =~= collect_to_initialize(e0));
    }
    if named {
        lemma_recorded_named(e0, name, ResolvedClass::AlreadyLoaded(id), t);
    }
    lemma_chain_top(ps, top, t, given, named);
}

/// No pending class file makes a consistent chain.
proof fn lemma_chain_empty(t: Seq<Class>, given: Seq<ClassFile>, named: bool)
    ensures
        chain_ok(Seq::<PendingClass>::empty(), t, given, named),
{
    reveal(chain_ok);
}

/// A class built from names that each led to a class with that name is linked by names.
proof fn lemma_new_class_linked(
    t: Seq<Class>,
    t2: Seq<Class>,
    cf: ClassFile,
    id: ClassId,
    e: Seq<(Seq<char>, ResolvedClass)>,
    given: Seq<ClassFile>,
)
    requires
        t2.len() == t.len() + 1,
        t2.subrange(0, t.len() as int) == t,
        built_class(t, cf, id, e, t2.last()),
        resolved_all(t, referenced_names(cf), e),
        forall|j: int| 0 <= j < e.len() ==> t[#[trigger] e[j].1.class()@ - 1].name@ == e[j].0,
        given.contains(cf),
    ensures
        new_classes_linked(t, t2, given),
{
    let c = t2.last();
    let refs = referenced_names(cf);
    let k0: int = if cf.superclass is Some { 1 } else { 0 };
    if let Some(n) = cf.superclass {
        assert(refs[0] == n@);
        assert(has_key(e, refs[0]));
        let k = key_index(e, n@);
        assert(e[k].0 == n@);
        assert(resolved_ok(t, e[k].1));
        let x = e[k].1.class()@;
        assert(t2[x - 1] == t2.subrange(0, t.len() as int)[x - 1]);
    }
    assert forall|k: int| 0 <= k < c.interfaces@.len() implies has_class(t2, #[trigger] c.interfaces@[k]@ as int) && t2[c.interfaces@[k]@
        - 1].name@ == cf.interfaces@[k]@ by {
        assert(refs[k0 + k] == cf.interfaces@[k]@);
        assert(has_key(e, refs[k0 + k]));
        let j = key_index(e, cf.interfaces@[k]@);
        assert(e[j].0 == cf.interfaces@[k]@);
        assert(resolved_ok(t, e[j].1));
        assert(c.interfaces@[k] == lookup(e, cf.interfaces@[k]@).class());
        let x = e[j].1.class()@;
        assert(t2[x - 1] == t2.subrange(0, t.len() as int)[x - 1]);
    }
    assert(links_named(t2, cf, c));
    assert(built_from(cf, c));
    assert(t2[t.len() as int] == c);
    assert(class_linked(t2, given, t2[t.len() as int]));
}

/// A class file given for the name the last pending one waits for, with nothing resolved
/// yet, extends a consistent chain.
proof fn lemma_chain_push(
    ps: Seq<PendingClass>,
    p: PendingClass,
    t: Seq<Class>,
    given: Seq<ClassFile>,
    named: bool,
    named2: bool,
)
    requires
        chain_ok(ps, t, given, named),
        p.start@ == t.len(),
        resolved_entries(p.resolved) == Seq::<(Seq<char>, ResolvedClass)>::empty(),
        named2 ==> named,
        named2 && ps.len() > 0 ==> p.class_file.name@ == referenced_names(ps.last().class_file)[ps.last().next as int],
    ensures
        chain_ok(ps.push(p), t, given.push(p.class_file), named2),
{
    reveal(chain_ok);
    let ps2 = ps.push(p);
    let given2 = given.push(p.class_file);
    let n = ps.len();
    assert forall|i: int| 0 <= i < ps2.len() implies 0 <= #[trigger] ps2[i].start@ <= next_start(ps2, i, t) by {
        if i < n {
            assert(ps2[i] == ps[i]);
            assert(0 <= ps[i].start@ <= next_start(ps, i, t));
            if i + 1 < n {
                assert(ps2[i + 1] == ps[i + 1]);
            }
        }
    }
    if refs_distinct(given2) {
        assert(refs_distinct(given)) by {
            assert forall|i: int| 0 <= i < given.len() implies referenced_names(#[trigger] given[i]).no_duplicates() by {
                assert(given2[i] == given[i]);
            }
        }
        assert forall|i: int| 0 <= i < ps2.len() implies ids_between(
            collect_to_initialize(resolved_entries(#[trigger] ps2[i].resolved)),
            ps2[i].start@,
            next_start(ps2, i, t),
        ) by {
            if i < n {
                assert(ps2[i] == ps[i]);
                assert(ids_between(collect_to_initialize(resolved_entries(ps[i].resolved)), ps[i].start@, next_start(ps, i, t)));
                if i + 1 < n {
                    assert(ps2[i + 1] == ps[i + 1]);
                }
            }
        }
    }
    if named2 {
        assert forall|i: int, j: int|
            0 <= i < ps2.len() && 0 <= j < resolved_entries(ps2[i].resolved).len() implies t[#[trigger] resolved_entries(
                #[trigger] ps2[i].resolved,
            )[j].1.class()@ - 1].name@ == resolved_entries(ps2[i].resolved)[j].0 by {
            if i < n {
                assert(ps2[i] == ps[i]);
            }
        }
        assert forall|i: int|
            0 <= i < ps2.len() - 1 implies #[trigger] ps2[i + 1].class_file.name@ == referenced_names(ps2[i].class_file)[ps2[i].next as int] by {
            assert(ps2[i] == ps[i]);
            if i + 1 < n {
                assert(ps2[i + 1] == ps[i + 1]);
                assert(ps[i + 1].class_file.name@ == referenced_names(ps[i].class_file)[ps[i].next as int]);
            } else {
                assert(ps.last() == ps[i]);
            }
        }
    }
}

proof fn lemma_push_sums(x: Seq<PendingClass>, p: PendingClass)
    ensures
        pending_fields(x.push(p)) == pending_fields(x) + p.class_file.fields.len(),
        pending_work(x.push(p)) == pending_work(x) + referenced_names(p.class_file).len() - p.next + 1,
{
    assert(x.push(p).drop_last() =~= x);
}

/// The classes listed by resolved classes of `t` are classes of `t`.
proof fn lemma_collect_ok(t: Seq<Class>, e: Seq<(Seq<char>, ResolvedClass)>)
    requires
        forall|j: int| 0 <= j < e.len() ==> resolved_ok(t, #[trigger] e[j].1),
    ensures
        forall|k: int|
            0 <= k < collect_to_initialize(e).len() ==> has_class(t, #[trigger] collect_to_initialize(e)[k]@ as int),
    decreases e.len(),
{
    if e.len() > 0 {
        let d = e.drop_last();
        assert forall|j: int| 0 <= j < d.len() implies resolved_ok(t, #[trigger] d[j].1) by {
            assert(d[j] == e[j]);
        }
        lemma_collect_ok(t, d);
        assert(resolved_ok(t, e[e.len() - 1].1));
        let c = collect_to_initialize(e);
        let cd = collect_to_initialize(d);
        assert forall|k: int| 0 <= k < c.len() implies has_class(t, #[trigger] c[k]@ as int) by {
            if k >= cd.len() {
                assert(c[k] == e.last().1.initialize()[k - cd.len()]);
            }
        }
    }
}

/// A resolved class of `t` is one of any table that extends `t`.
proof fn lemma_resolved_grow(t: Seq<Class>, t2: Seq<Class>, r: ResolvedClass)
    requires
        resolved_ok(t, r),
        t.len() <= t2.len(),
    ensures
        resolved_ok(t2, r),
{
    assert forall|k: int| 0 <= k < r.initialize().len() implies has_class(t2, #[trigger] r.initialize()[k]@ as int) by {
        assert(has_class(t, r.initialize()[k]@ as int));
    }
}

/// Recording what the next referenced name resolved to keeps a pending class file
/// consistent.
proof fn lemma_pending_record(p: PendingClass, p2: PendingClass, t: Seq<Class>, v: ResolvedClass)
    requires
        pending_ok(p, t),
        p.next < referenced_names(p.class_file).len(),
        resolved_ok(t, v),
        p2.class_file == p.class_file,
        p2.next == p.next + 1,
        ({
            let e = resolved_entries(p.resolved);
            let k = referenced_names(p.class_file)[p.next as int];
            &&& has_key(e, k) ==> resolved_entries(p2.resolved) == e.update(key_index(e, k), (k, v))
            &&& !has_key(e, k) ==> resolved_entries(p2.resolved) == e.push((k, v))
        }),
    ensures
        pending_ok(p2, t),
{
    let e = resolved_entries(p.resolved);
    let e2 = resolved_entries(p2.resolved);
    let refs = referenced_names(p.class_file);
    let name = refs[p.next as int];
    if has_key(e, name) {
        let i = key_index(e, name);
        assert forall|kk: Seq<char>| has_key(e2, kk) <==> has_key(e, kk) by {
            if has_key(e2, kk) {
                let j = choose|j: int| 0 <= j < e2.len() && #[trigger] e2[j].0 == kk;
                assert(e[j].0 == kk);
            }
            if has_key(e, kk) {
                let j = choose|j: int| 0 <= j < e.len() && #[trigger] e[j].0 == kk;
                assert(e2[j].0 == kk);
            }
        }
        assert forall|kk: Seq<char>|
            has_key(e2, kk) <==> exists|j: int| 0 <= j < p2.next && #[trigger] refs[j] == kk by {
            if has_key(e, kk) {
                let j = choose|j: int| 0 <= j < p.next && #[trigger] refs[j] == kk;
                assert(0 <= j < p2.next);
            }
            if exists|j: int| 0 <= j < p2.next && #[trigger] refs[j] == kk {
                let j = choose|j: int| 0 <= j < p2.next && #[trigger] refs[j] == kk;
                if j < p.next {
                    assert(has_key(e, kk));
                }
            }
        }
        assert(keys_distinct(e2)) by {
            assert forall|a: int, b: int| 0 <= a < b < e2.len() implies #[trigger] e2[a].0 != #[trigger] e2[b].0 by {
                assert(e[a].0 != e[b].0);
            }
        }
    } else {
        assert forall|kk: Seq<char>| has_key(e2, kk) <==> (has_key(e, kk) || kk == name) by {
            if has_key(e2, kk) {
                let j = choose|j: int| 0 <= j < e2.len() && #[trigger] e2[j].0 == kk;
                if j < e.len() {
                    assert(e[j].0 == kk);
                }
            }
            if has_key(e, kk) {
                let j = choose|j: int| 0 <= j < e.len() && #[trigger] e[j].0 == kk;
                assert(e2[j].0 == kk);
            }
            if kk == name {
                assert(e2[e.len() as int].0 == kk);
            }
        }
        assert forall|kk: Seq<char>|
            has_key(e2, kk) <==> exists|j: int| 0 <= j < p2.next && #[trigger] refs[j] == kk by {
            if has_key(e, kk) {
                let j = choose|j: int| 0 <= j < p.next && #[trigger] refs[j] == kk;
                assert(0 <= j < p2.next);
            }
            if exists|j: int| 0 <= j < p2.next && #[trigger] refs[j] == kk {
                let j = choose|j: int| 0 <= j < p2.next && #[trigger] refs[j] == kk;
                if j < p.next {
                    assert(has_key(e, kk));
                }
            }
        }
        assert(keys_distinct(e2)) by {
            assert forall|a: int, b: int| 0 <= a < b < e2.len() implies #[trigger] e2[a].0 != #[trigger] e2[b].0 by {
                if b < e.len() {
                    assert(e[a].0 != e[b].0);
                } else {
                    assert(e2[a].0 == e[a].0);
                    if e[a].0 == name {
                        assert(has_key(e, name));
                    }
                }
            }
        }
    }
    assert forall|j: int| 0 <= j < e2.len() implies resolved_ok(t, #[trigger] e2[j].1) by {
        if j < e.len() && e2[j] == e[j] {
        }
    }
}

impl ClassResolution {
    /// Whether the last pending class file refers to a name not resolved yet.
    pub closed spec fn waiting(&self) -> bool {
        &&& self.pending@.len() > 0
        &&& self.pending@.last().next < referenced_names(self.pending@.last().class_file).len()
    }

    /// The resolution steps still to make.
    closed spec fn work(&self) -> int {
        pending_work(self.pending@)
    }
}

impl ClassManager {
    /// Whether the class with the given name is loaded: `Resolved` if it is, else
    /// `NeedClassFile` with its name, which `continue_resolution` then takes.
    pub fn get_or_resolve_class(&self, class_name: &str) -> (res: ResolutionStep)
        ensures
            match res {
                ResolutionStep::Resolved(r) => exists|i: int|
                    0 <= i < self.table().len() && self.table()[i].name@ == class_name@
                        && r == ResolvedClass::AlreadyLoaded(self.table()[i].id) && forall|j: int|
                        i < j < self.table().len() ==> self.table()[j].name@ != class_name@,
                ResolutionStep::NeedClassFile(n) => n@ == class_name@ && forall|j: int|
                    0 <= j < self.table().len() ==> self.table()[j].name@ != class_name@,
            },
    {
        match self.find_class_by_name(class_name) {
            Some(already_loaded_class) => ResolutionStep::Resolved(
                ResolvedClass::AlreadyLoaded(already_loaded_class.id),
            ),
            None => ResolutionStep::NeedClassFile(class_name.to_owned()),
        }
    }

    /// Makes one step of the resolution of the last pending class file: resolves the
    /// next name it refers to if that class is loaded, or asks for its class file; once
    /// all are resolved, creates its class and passes it on to the class file that was
    /// waiting for it. `None` when there is more to do.
    fn advance(&mut self, resolution: &mut ClassResolution) -> (res: Option<ResolutionStep>)
        requires
            old(self).wf(),
            old(resolution).wf(old(self).table()),
            old(resolution).depth() > 0,
            fields_fit(old(self).table(), old(resolution).fields()),
            old(self).table().len() + old(resolution).depth() < u32::MAX,
        ensures
            final(self).wf(),
            final(resolution).wf(final(self).table()),
            fields_fit(final(self).table(), final(resolution).fields()),
            final(self).table().len() + final(resolution).depth() <= old(self).table().len()
                + old(resolution).depth(),
            old(self).table().len() <= final(self).table().len(),
            final(self).table().subrange(0, old(self).table().len() as int) == old(self).table(),
            res is None ==> final(resolution).depth() > 0 && final(resolution).work() < old(resolution).work()
                && final(resolution).bottom_name() == old(resolution).bottom_name(),
            res matches Some(ResolutionStep::NeedClassFile(n)) ==> final(resolution).waiting()
                && n@ == final(resolution).waiting_for() && forall|j: int|
                0 <= j < final(self).table().len() ==> final(self).table()[j].name@ != n@,
            res matches Some(ResolutionStep::Resolved(r)) ==> final(resolution).depth() == 0
                && old(resolution).depth() == 1 && r is NewClass && r.class()@ == final(self).table().len()
                && final(self).table().last().name@ == old(resolution).bottom_name(),
            final(resolution).given() == old(resolution).given(),
            new_classes_built(old(self).table(), final(self).table(), final(resolution).given()),
            final(resolution).answers_named() == old(resolution).answers_named(),
            old(resolution).answers_named() ==> new_classes_linked(old(self).table(), final(self).table(), final(resolution).given()),
            final(resolution).depth() > 0 ==> final(resolution).start() == old(resolution).start(),
            res matches Some(ResolutionStep::Resolved(r)) ==> (refs_distinct(final(resolution).given()) ==> ids_between(
                r.initialize(),
                old(resolution).start(),
                final(self).table().len() as int,
            )),
    {
        let ghost t = self.table();
        let ghost ps = resolution.pending@;
        let ghost given = resolution.given@;
        let ghost named = resolution.named@;
        let top_index = resolution.pending.len() - 1;
        let next = resolution.pending[top_index].next;
        proof {
            assert(pending_ok(ps[top_index as int], t));
            assert(ps.drop_last().push(ps.last()) =~= ps);
            lemma_push_sums(ps.drop_last(), ps.last());
            assert forall|i: int| 0 <= i < ps.len() implies #[trigger] ps[i].next <= referenced_names(ps[i].class_file).len() by {
                assert(pending_ok(ps[i], t));
            }
            lemma_pending_sums_nonneg(ps.drop_last());
        }
        match referenced_name(&resolution.pending[top_index].class_file, next) {
            Some(name) => {
                let name = name.clone();
                match self.find_class_by_name(&name) {
                    Some(class) => {
                        let id = class.id;
                        proof {
                            let i = choose|i: int|
                                0 <= i < t.len() && t[i] == *class && class.name@ == name@;
                            self.lemma_wf();
                            assert(class_wf(t, i));
                        }
                        let mut top = resolution.pending.pop().unwrap();
                        let ghost top0 = top;
                        insert_resolved(&mut top.resolved, name, ResolvedClass::AlreadyLoaded(id));
                        top.next = top.next + 1;
                        proof {
                            lemma_pending_record(top0, top, t, ResolvedClass::AlreadyLoaded(id));
                            assert(top0 == ps.last());
                            assert(given.contains(top0.class_file));
                            let i = choose|i: int| 0 <= i < t.len() && t[i] == *class && class.name@ == name@;
                            assert(class_wf(t, i));
                            lemma_chain_already(ps, top, name@, id, t, given, named);
                        }
                        resolution.pending.push(top);
                        proof {
                            let ps2 = resolution.pending@;
                            assert(ps2.drop_last() =~= ps.drop_last());
                            lemma_push_sums(ps.drop_last(), top);
                            assert(ps2 =~= ps.drop_last().push(top));
                            assert forall|i: int| 0 <= i < ps2.len() implies pending_ok(#[trigger] ps2[i], t) by {
                                if i < ps2.len() - 1 {
                                    assert(ps2[i] == ps[i]);
                                }
                            }
                            assert forall|i: int| 0 <= i < ps2.len() - 1 implies #[trigger] ps2[i].next < referenced_names(ps2[i].class_file).len() by {
                                assert(ps2[i] == ps[i]);
                            }
                            assert(self.table().subrange(0, t.len() as int) =~= t);
                            assert(ps2[0].class_file == ps[0].class_file);
                        }
                        None
                    },
                    None => {
                        proof {
                            assert(self.table().subrange(0, t.len() as int) =~= t);
                        }
                        Some(ResolutionStep::NeedClassFile(name))
                    },
                }
            },
            None => {
                let top = resolution.pending.pop().unwrap();
                proof {
                    let e = resolved_entries(top.resolved);
                    let refs = referenced_names(top.class_file);
                    assert(top == ps[top_index as int]);
                    assert(top.next == refs.len());
                    assert forall|i: int| 0 <= i < refs.len() implies has_key(e, #[trigger] refs[i]) by {
                        assert(0 <= i < top.next && refs[i] == refs[i]);
                        assert(exists|j: int| 0 <= j < top.next && #[trigger] refs[j] == refs[i]);
                    }
                }
                let ghost top_file = top.class_file;
                let ghost top_entries = resolved_entries(top.resolved);
                let loaded = match self.allocate(top.class_file, top.resolved) {
                    Ok(loaded) => loaded,
                    Err(_) => {
                        return None;
                    },
                };
                let ghost t2 = self.table();
                proof {
                    lemma_chain_last(ps, t, given, named);
                    assert(ps.last() == ps[top_index as int]);
                    let rc = loaded.resolved_class;
                    if refs_distinct(given) {
                        let c0 = collect_to_initialize(top_entries);
                        assert(loaded.to_initialize@ =~= c0 + seq![rc]);
                        lemma_ids_concat(c0, seq![rc], ps.last().start@, t.len() as int, t2.len() as int);
                    }
                    if named {
                        assert(given.contains(top_file));
                        lemma_new_class_linked(t, t2, top_file, ClassId::spec_new((t.len() + 1) as u32), top_entries, given);
                    }
                }
                proof {
                    lemma_collect_ok(t, top_entries);
                    assert(resolved_ok(t2, ResolvedClass::NewClass(loaded))) by {
                        assert forall|k: int| 0 <= k < loaded.to_initialize@.len() implies has_class(t2, #[trigger] loaded.to_initialize@[k]@ as int) by {
                            if k < collect_to_initialize(top_entries).len() {
                                assert(has_class(t, collect_to_initialize(top_entries)[k]@ as int));
                            }
                        }
                    }
                    // the classes already in the table keep fitting, and so does the new one
                    assert forall|i: int| 0 <= i < t2.len() implies #[trigger] t2[i].num_total_fields
                        + pending_fields(ps.drop_last()) <= usize::MAX by {
                        if i < t.len() {
                            assert(t2[i] == t[i]);
                        } else {
                            let c = t2.last();
                            assert(t2[i] == c);
                            match c.superclass {
                                Some(sid) => {
                                    let n = top_file.superclass->0;
                                    assert(referenced_names(top_file)[0] == n@);
                                    assert(has_key(top_entries, referenced_names(top_file)[0]));
                                    let j = key_index(top_entries, n@);
                                    assert(resolved_ok(t, top_entries[j].1));
                                    assert(t[sid@ - 1].num_total_fields + pending_fields(ps) <= usize::MAX);
                                },
                                None => {},
                            }
                        }
                    }
                }
                if resolution.pending.len() == 0 {
                    proof {
                        assert(resolution.pending@ =~= ps.drop_last());
                        lemma_chain_empty(t2, given, named);
                        assert(resolution.pending@ =~= Seq::<PendingClass>::empty());
                    }
                    Some(ResolutionStep::Resolved(ResolvedClass::NewClass(loaded)))
                } else {
                    let mut parent = resolution.pending.pop().unwrap();
                    let ghost parent0 = parent;
                    let ghost rest = resolution.pending@;
                    proof {
                        assert(ps.drop_last().drop_last() =~= rest);
                        assert(ps.drop_last() =~= rest.push(parent0));
                        assert(parent0 == ps[ps.len() - 2]);
                        assert(pending_ok(parent0, t));
                        assert(parent0.next < referenced_names(parent0.class_file).len());
                        assert(pending_ok(parent0, t2)) by {
                            let e = resolved_entries(parent0.resolved);
                            assert forall|j: int| 0 <= j < e.len() implies resolved_ok(t2, #[trigger] e[j].1) by {
                                lemma_resolved_grow(t, t2, e[j].1);
                            }
                        }
                    }
                    let name = referenced_name(&parent.class_file, parent.next).unwrap().clone();
                    insert_resolved(&mut parent.resolved, name, ResolvedClass::NewClass(loaded));
                    parent.next = parent.next + 1;
                    proof {
                        lemma_pending_record(parent0, parent, t2, ResolvedClass::NewClass(loaded));
                    }
                    resolution.pending.push(parent);
                    proof {
                        let ps2 = resolution.pending@;
                        assert(ps2 =~= rest.push(parent));
                        lemma_push_sums(rest, parent);
                        lemma_push_sums(rest, parent0);
                        assert forall|i: int| 0 <= i < ps2.len() implies pending_ok(#[trigger] ps2[i], t2) by {
                            if i < ps2.len() - 1 {
                                assert(ps2[i] == ps[i]);
                                assert(pending_ok(ps[i], t));
                                let e = resolved_entries(ps[i].resolved);
                                assert forall|j: int| 0 <= j < e.len() implies resolved_ok(t2, #[trigger] e[j].1) by {
                                    lemma_resolved_grow(t, t2, e[j].1);
                                }
                            }
                        }
                        assert forall|i: int| 0 <= i < ps2.len() - 1 implies #[trigger] ps2[i].next < referenced_names(ps2[i].class_file).len() by {
                            assert(ps2[i] == ps[i]);
                        }
                        assert(ps2[0].class_file == ps[0].class_file);
                        assert forall|i: int, j: int|
                            0 <= i < ps.len() && 0 <= j < resolved_entries(ps[i].resolved).len() implies has_class(
                                t,
                                #[trigger] resolved_entries(#[trigger] ps[i].resolved)[j].1.class()@ as int,
                            ) by {
                            assert(pending_ok(ps[i], t));
                        }
                        if refs_distinct(given) {
                            let e0 = resolved_entries(parent0.resolved);
                            let refs = referenced_names(parent0.class_file);
                            assert(given.contains(parent0.class_file));
                            let gi = choose|gi: int| 0 <= gi < given.len() && given[gi] == parent0.class_file;
                            assert(refs.no_duplicates()) by {
                                assert(referenced_names(given[gi]).no_duplicates());
                            }
                            if has_key(e0, name@) {
                                let j = choose|j: int| 0 <= j < parent0.next && #[trigger] refs[j] == name@;
                                lemma_repeated_ref(refs, parent0.next as int, j);
                            }
                        }
                        assert(resolved_entries(parent.resolved) == recorded(resolved_entries(parent0.resolved), name@, ResolvedClass::NewClass(loaded)));
                        lemma_chain_complete(ps, parent, ResolvedClass::NewClass(loaded), name@, t, t2, given, named);
                        assert(ps.drop_last().drop_last() =~= rest);
                    }
                    None
                }
            },
        }
    }

    /// Goes on resolving with the class file that was asked for last (or that of the
    /// class to load, when nothing is pending), until another class file is needed or
    /// the class is loaded.
    pub fn continue_resolution(&mut self, resolution: &mut ClassResolution, class_file: ClassFile) -> (res: ResolutionStep)
        requires
            old(self).wf(),
            old(resolution).wf(old(self).table()),
            old(resolution).depth() == 0 || old(resolution).waiting(),
            referenced_names(class_file).len() < usize::MAX,
            fields_fit(old(self).table(), old(resolution).fields() + class_file.fields.len()),
            old(self).table().len() + old(resolution).depth() + 1 < u32::MAX,
        ensures
            final(self).wf(),
            final(resolution).wf(final(self).table()),
            fields_fit(final(self).table(), final(resolution).fields()),
            final(self).table().len() + final(resolution).depth() <= old(self).table().len()
                + old(resolution).depth() + 1,
            old(self).table().len() <= final(self).table().len(),
            final(self).table().subrange(0, old(self).table().len() as int) == old(self).table(),
            final(resolution).given() == old(resolution).given().push(class_file),
            new_classes_built(old(self).table(), final(self).table(), final(resolution).given()),
            final(resolution).answers_named() == (old(resolution).answers_named() && (old(resolution).depth() == 0
                || class_file.name@ == old(resolution).waiting_for())),
            final(resolution).answers_named() ==> new_classes_linked(
                old(self).table(),
                final(self).table(),
                final(resolution).given(),
            ),
            final(resolution).depth() > 0 ==> final(resolution).start() == if old(resolution).depth() == 0 {
                old(self).table().len() as int
            } else {
                old(resolution).start()
            },
            match res {
                ResolutionStep::NeedClassFile(n) => final(resolution).waiting() && n@ == final(resolution).waiting_for() && forall|j: int|
                    0 <= j < final(self).table().len() ==> final(self).table()[j].name@ != n@,
                ResolutionStep::Resolved(r) => final(resolution).depth() == 0 && r is NewClass
                    && r.class()@ == final(self).table().len() && final(self).table().last().name@
                    == (if old(resolution).depth() == 0 {
                    class_file.name@
                } else {
                    old(resolution).bottom_name()
                }) && (refs_distinct(final(resolution).given()) ==> ids_between(
                    r.initialize(),
                    if old(resolution).depth() == 0 {
                        old(self).table().len() as int
                    } else {
                        old(resolution).start()
                    },
                    final(self).table().len() as int,
                )),
            },
    {
        let ghost t0 = self.table();
        let ghost ps0 = resolution.pending@;
        let ghost given0 = resolution.given@;
        let ghost given = resolution.given@.push(class_file);
        let ghost named0 = resolution.named@;
        let ghost named1 = named0 && (ps0.len() == 0 || class_file.name@ == old(resolution).waiting_for());
        let ghost s0: int = if ps0.len() == 0 { t0.len() as int } else { old(resolution).start() };
        resolution.given = Ghost(given);
        resolution.named = Ghost(named1);
        let pending = PendingClass { class_file, resolved: new_resolved_map(), next: 0, start: Ghost(t0.len() as int) };
        proof {
            assert(resolved_entries(pending.resolved) =~= Seq::<(Seq<char>, ResolvedClass)>::empty());
            lemma_chain_push(ps0, pending, t0, given0, named0, named1);
        }
        proof {
            assert forall|k: Seq<char>| has_key(resolved_entries(pending.resolved), k) <==> exists|j: int|
                0 <= j < pending.next && #[trigger] referenced_names(pending.class_file)[j] == k by {
            }
        }
        resolution.pending.push(pending);
        proof {
            let ps = resolution.pending@;
            lemma_push_sums(ps0, pending);
            assert forall|i: int| 0 <= i < ps.len() implies pending_ok(#[trigger] ps[i], t0) by {
                if i < ps0.len() {
                    assert(ps[i] == ps0[i]);
                }
            }
            assert forall|i: int| 0 <= i < ps.len() - 1 implies #[trigger] ps[i].next < referenced_names(ps[i].class_file).len() by {
                assert(ps[i] == ps0[i]);
                if i < ps0.len() - 1 {
                } else {
                    assert(ps0.last() == ps0[i]);
                }
            }
            assert forall|i: int| 0 <= i < ps.len() implies #[trigger] ps[i].next <= referenced_names(ps[i].class_file).len() by {
                assert(pending_ok(ps[i], t0));
            }
            lemma_pending_sums_nonneg(ps);
            assert(self.table().subrange(0, t0.len() as int) =~= t0);
            if ps0.len() > 0 {
                assert(ps[0] == ps0[0]);
            }
            assert forall|i: int| 0 <= i < ps.len() implies given.contains(#[trigger] ps[i].class_file) by {
                if i < ps0.len() {
                    assert(ps[i] == ps0[i]);
                    assert(old(resolution).given@.contains(ps0[i].class_file));
                    let j = choose|j: int| 0 <= j < old(resolution).given@.len() && old(resolution).given@[j] == ps0[i].class_file;
                    assert(given[j] == ps0[i].class_file);
                } else {
                    assert(given[given.len() - 1] == ps[i].class_file);
                }
            }
        }
        loop
            invariant
                t0 == old(self).table(),
                ps0 == old(resolution).pending@,
                self.wf(),
                resolution.wf(self.table()),
                resolution.depth() > 0,
                fields_fit(self.table(), resolution.fields()),
                self.table().len() + resolution.depth() <= t0.len() + ps0.len() + 1,
                t0.len() + ps0.len() + 1 < u32::MAX,
                t0.len() <= self.table().len(),
                self.table().subrange(0, t0.len() as int) == t0,
                resolution.work() >= 0,
                resolution.bottom_name() == if ps0.len() == 0 {
                    class_file.name@
                } else {
                    ps0[0].class_file.name@
                },
                resolution.given() == given,
                given == old(resolution).given().push(class_file),
                new_classes_built(t0, self.table(), given),
                resolution.answers_named() == named1,
                named1 == (old(resolution).answers_named() && (ps0.len() == 0 || class_file.name@
                    == old(resolution).waiting_for())),
                named1 ==> new_classes_linked(t0, self.table(), given),
                resolution.start() == s0,
                s0 == if ps0.len() == 0 {
                    t0.len() as int
                } else {
                    old(resolution).start()
                },
            decreases resolution.work(),
        {
            let ghost t1 = self.table();
            let ghost r1 = *resolution;
            match self.advance(resolution) {
                Some(step) => {
                    proof {
                        assert(self.table().subrange(0, t0.len() as int) =~= self.table().subrange(0, t1.len() as int).subrange(0, t0.len() as int));
                        lemma_new_classes_built_trans(t0, t1, self.table(), given);
                        if named1 {
                            lemma_new_classes_linked_trans(t0, t1, self.table(), given);
                        }
                        assert(resolution.answers_named() == named1);
                        assert(resolution.depth() > 0 ==> resolution.start() == s0);
                    }
                    return step;
                },
                None => {
                    proof {
                        assert(self.table().subrange(0, t0.len() as int) =~= self.table().subrange(0, t1.len() as int).subrange(0, t0.len() as int));
                        lemma_new_classes_built_trans(t0, t1, self.table(), given);
                        if named1 {
                            lemma_new_classes_linked_trans(t0, t1, self.table(), given);
                        }
                        let ps = resolution.pending@;
                        assert forall|i: int| 0 <= i < ps.len() implies #[trigger] ps[i].next <= referenced_names(ps[i].class_file).len() by {
                            assert(pending_ok(ps[i], self.table()));
                        }
                        lemma_pending_sums_nonneg(ps);
                    }
                },
            }
        }
    }

    /// Whether `continue_resolution` can take `class_file`: the numbers of fields of the
    /// classes it may create, and their ids, fit.
    pub fn can_continue_resolution(&self, resolution: &ClassResolution, class_file: &ClassFile) -> (res: bool)
        requires
            self.wf(),
        ensures
            res == (fields_fit(self.table(), resolution.fields() + class_file.fields.len())
                && self.table().len() + resolution.depth() + 1 < u32::MAX
                && referenced_names(*class_file).len() < usize::MAX),
    {
        let limit: usize = if class_file.superclass.is_some() {
            usize::MAX - 1
        } else {
            usize::MAX
        };
        if class_file.interfaces.len() >= limit {
            return false;
        }
        let mut total: usize = class_file.fields.len();
        let mut i: usize = 0;
        while i < resolution.pending.len()
            invariant
                i <= resolution.pending@.len(),
                total == pending_fields(resolution.pending@.subrange(0, i as int)) + class_file.fields.len(),
            decreases resolution.pending@.len() - i,
        {
            proof {
                let sub = resolution.pending@.subrange(0, i + 1);
                assert(sub.drop_last() =~= resolution.pending@.subrange(0, i as int));
                assert(sub.last() == resolution.pending@[i as int]);
            }
            let n = resolution.pending[i].class_file.fields.len();
            if total > usize::MAX - n {
                proof {
                    lemma_pending_fields_prefix(resolution.pending@, i as int + 1);
                }
                return false;
            }
            total = total + n;
            i = i + 1;
        }
        proof {
            assert(resolution.pending@.subrange(0, i as int) =~= resolution.pending@);
        }
        if !self.fields_fit_with(total) {
            return false;
        }
        let classes = self.next_id().as_u32() as usize;
        resolution.pending.len() < (u32::MAX as usize) - classes
    }
}

/// The fields of the first pending class files never outnumber those of all of them.
proof fn lemma_pending_fields_prefix(ps: Seq<PendingClass>, n: int)
    requires
        0 <= n <= ps.len(),
    ensures
        pending_fields(ps.subrange(0, n)) <= pending_fields(ps),
    decreases ps.len() - n,
{
    if n < ps.len() {
        lemma_pending_fields_prefix(ps, n + 1);
        let sub = ps.subrange(0, n + 1);
        assert(sub.drop_last() =~= ps.subrange(0, n));
        assert(sub.last() == ps[n]);
    } else {
        assert(ps.subrange(0, n) =~= ps);
    }
}

} // verus!
