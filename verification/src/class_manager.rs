use vstd::prelude::*;

use crate::class::{Class, ClassFileField, ClassId};

verus! {

/// Whether class ids `1..=t.len()` name the classes of `t` in order, each class coming
/// after its superclass and its interfaces, with its field indices following those of
/// its superclass.
pub open spec fn table_wf(t: Seq<Class>) -> bool {
    forall|i: int| 0 <= i < t.len() ==> #[trigger] class_wf(t, i)
}

pub open spec fn class_wf(t: Seq<Class>, i: int) -> bool {
    let c = t[i];
    &&& c.id@ == i + 1
    &&& match c.superclass {
        Some(s) => 1 <= s@ <= i && c.first_field_index == t[s@ - 1].num_total_fields,
        None => c.first_field_index == 0,
    }
    &&& forall|k: int| 0 <= k < c.interfaces.len() ==> 1 <= #[trigger] c.interfaces@[k]@ <= i
    &&& c.num_total_fields == c.first_field_index + c.fields.len()
}

/// Whether `id` names a class of `t`.
pub open spec fn has_class(t: Seq<Class>, id: int) -> bool {
    1 <= id <= t.len()
}

/// The class with the given id.
pub open spec fn class_of(t: Seq<Class>, id: int) -> Class {
    t[id - 1]
}

/// All the fields of a class, those of its superclass first: the position of a field in
/// this sequence is its index in the objects of the class.
pub open spec fn all_fields(t: Seq<Class>, id: int) -> Seq<ClassFileField>
    decreases id,
{
    if has_class(t, id) {
        let c = t[id - 1];
        match c.superclass {
            Some(s) => if 1 <= s@ < id {
                all_fields(t, s@ as int) + c.fields@
            } else {
                c.fields@
            },
            None => c.fields@,
        }
    } else {
        Seq::empty()
    }
}

/// For each field of the class's objects, whether it holds a reference.
pub open spec fn reference_mask(t: Seq<Class>, id: int) -> Seq<bool> {
    all_fields(t, id).map_values(|f: ClassFileField| f.type_descriptor.is_reference())
}

/// The field at `index` in the objects of the class.
pub open spec fn field_at(t: Seq<Class>, id: int, index: int) -> Option<ClassFileField>
    decreases id,
{
    if has_class(t, id) {
        let c = t[id - 1];
        if index < c.first_field_index {
            match c.superclass {
                Some(s) => if 1 <= s@ < id {
                    field_at(t, s@ as int, index)
                } else {
                    None
                },
                None => None,
            }
        } else if index - c.first_field_index < c.fields.len() {
            Some(c.fields@[index - c.first_field_index])
        } else {
            None
        }
    } else {
        None
    }
}

/// The position of the first field named `name` in `fields`.
pub open spec fn first_named(fields: Seq<ClassFileField>, name: Seq<char>) -> Option<int>
    decreases fields.len(),
{
    if fields.len() == 0 {
        None
    } else if fields[0].name@ == name {
        Some(0)
    } else {
        match first_named(fields.drop_first(), name) {
            Some(k) => Some(k + 1),
            None => None,
        }
    }
}

/// The position `o` moved by `k`.
pub open spec fn shifted(o: Option<int>, k: int) -> Option<int> {
    match o {
        Some(j) => Some(j + k),
        None => None,
    }
}

/// The field named `name` that the class declares, or else that its closest superclass
/// declaring such a field does; with its index in the objects of the class.
pub open spec fn find_field_spec(t: Seq<Class>, id: int, name: Seq<char>) -> Option<
    (int, ClassFileField),
>
    decreases id,
{
    if has_class(t, id) {
        let c = t[id - 1];
        match first_named(c.fields@, name) {
            Some(k) => Some((k + c.first_field_index, c.fields@[k])),
            None => match c.superclass {
                Some(s) => if 1 <= s@ < id {
                    find_field_spec(t, s@ as int, name)
                } else {
                    None
                },
                None => None,
            },
        }
    } else {
        None
    }
}

/// Whether class `id` has the name of class `base`, or one of its superclasses or of the
/// interfaces it implements (directly or not) does.
pub open spec fn is_subclass(t: Seq<Class>, id: int, base: int) -> bool
    decreases id, (if has_class(t, id) {
        t[id - 1].interfaces.len() + 1
    } else {
        0
    }),
{
    if has_class(t, id) && has_class(t, base) {
        let c = t[id - 1];
        ||| c.name@ == t[base - 1].name@
        ||| match c.superclass {
            Some(s) => 1 <= s@ < id && is_subclass(t, s@ as int, base),
            None => false,
        }
        ||| some_interface_is_subclass(t, id, base, c.interfaces.len() as int)
    } else {
        false
    }
}

/// Whether one of the first `k` interfaces of class `id` is a subclass of `base`.
pub open spec fn some_interface_is_subclass(t: Seq<Class>, id: int, base: int, k: int) -> bool
    decreases id, k,
{
    if has_class(t, id) && 0 < k <= t[id - 1].interfaces.len() {
        let iface = t[id - 1].interfaces@[k - 1]@ as int;
        ||| some_interface_is_subclass(t, id, base, k - 1)
        ||| (1 <= iface < id && is_subclass(t, iface, base))
    } else {
        false
    }
}

/// Once one of the first `k` interfaces is a subclass, so is one of the first `k2 >= k`.
pub proof fn lemma_some_interface_monotonic(t: Seq<Class>, id: int, base: int, k: int, k2: int)
    requires
        k <= k2 <= (if has_class(t, id) {
            t[id - 1].interfaces.len() as int
        } else {
            0
        }),
        some_interface_is_subclass(t, id, base, k),
    ensures
        some_interface_is_subclass(t, id, base, k2),
    decreases k2 - k,
{
    if k < k2 {
        lemma_some_interface_monotonic(t, id, base, k, k2 - 1);
    }
}

/// The fields of a class's objects are the sequence `all_fields`: there are
/// `num_total_fields` of them, and the field at an index is the one at that position.
pub proof fn lemma_field_at_all_fields(t: Seq<Class>, id: int, index: int)
    requires
        table_wf(t),
        has_class(t, id),
        0 <= index,
    ensures
        all_fields(t, id).len() == class_of(t, id).num_total_fields,
        field_at(t, id, index) == if index < all_fields(t, id).len() {
            Some(all_fields(t, id)[index])
        } else {
            None::<ClassFileField>
        },
    decreases id,
{
    assert(class_wf(t, id - 1));
    let c = t[id - 1];
    match c.superclass {
        Some(s) => {
            lemma_field_at_all_fields(t, s@ as int, index);
            if index >= c.first_field_index {
                lemma_field_at_all_fields(t, s@ as int, 0);
            }
        },
        None => {},
    }
}

/// Loading more classes does not change the fields of the classes already loaded.
pub proof fn lemma_all_fields_prefix(t1: Seq<Class>, t2: Seq<Class>, id: int)
    requires
        t1.len() <= t2.len(),
        t2.subrange(0, t1.len() as int) == t1,
        has_class(t1, id),
    ensures
        all_fields(t2, id) == all_fields(t1, id),
    decreases id,
{
    assert(t2[id - 1] == t1[id - 1]);
    match t1[id - 1].superclass {
        Some(s) => {
            if 1 <= s@ < id {
                lemma_all_fields_prefix(t1, t2, s@ as int);
            }
        },
        None => {},
    }
}

/// Every class is a subclass of itself.
pub proof fn law_subclass_reflexive(t: Seq<Class>, id: int)
    requires
        has_class(t, id),
    ensures
        is_subclass(t, id, id),
{
}

/// Whether class `id` names `base` as its superclass or as one of its interfaces.
pub open spec fn declares_supertype(t: Seq<Class>, id: int, base: int) -> bool {
    ||| t[id - 1].superclass == Some(t[base - 1].id)
    ||| exists|k: int| 0 <= k < t[id - 1].interfaces@.len() && #[trigger] t[id - 1].interfaces@[k] == t[base - 1].id
}

/// A class is a subclass of its superclass and of each of the interfaces it declares,
/// the first as well as every later one.
pub proof fn law_declared_supertypes(t: Seq<Class>, id: int)
    requires
        table_wf(t),
        has_class(t, id),
    ensures
        t[id - 1].superclass matches Some(s) ==> is_subclass(t, id, s@ as int),
        forall|k: int| 0 <= k < t[id - 1].interfaces@.len() ==> is_subclass(t, id, #[trigger] t[id - 1].interfaces@[k]@ as int),
{
    let c = t[id - 1];
    assert(class_wf(t, id - 1));
    if let Some(s) = c.superclass {
        assert(is_subclass(t, s@ as int, s@ as int));
    }
    assert forall|k: int| 0 <= k < c.interfaces@.len() implies is_subclass(t, id, #[trigger] c.interfaces@[k]@ as int) by {
        let iface = c.interfaces@[k]@ as int;
        assert(1 <= iface <= id - 1);
        assert(is_subclass(t, iface, iface));
        assert(some_interface_is_subclass(t, id, iface, k + 1));
        lemma_some_interface_monotonic(t, id, iface, k + 1, c.interfaces.len() as int);
    }
}

/// A class is a subclass of every class it names as its superclass or as an interface.
pub proof fn law_subclass_of_declared(t: Seq<Class>, id: int, base: int)
    requires
        table_wf(t),
        has_class(t, id),
        has_class(t, base),
        declares_supertype(t, id, base),
    ensures
        is_subclass(t, id, base),
{
    law_declared_supertypes(t, id);
    assert(class_wf(t, base - 1));
    if t[id - 1].superclass == Some(t[base - 1].id) {
    } else {
        let k = choose|k: int| 0 <= k < t[id - 1].interfaces@.len() && #[trigger] t[id - 1].interfaces@[k] == t[base - 1].id;
        assert(is_subclass(t, id, t[id - 1].interfaces@[k]@ as int));
    }
}

/// Whether no two classes of `t` have the same name.
pub open spec fn names_unique(t: Seq<Class>) -> bool {
    forall|i: int, j: int| 0 <= i < j < t.len() ==> #[trigger] t[i].name@ != #[trigger] t[j].name@
}

/// Being a subclass is transitive, when no two loaded classes have the same name.
pub proof fn law_subclass_transitive(t: Seq<Class>, a: int, b: int, c: int)
    requires
        names_unique(t),
        is_subclass(t, a, b),
        is_subclass(t, b, c),
    ensures
        is_subclass(t, a, c),
    decreases a, (if has_class(t, a) {
        t[a - 1].interfaces.len() + 1
    } else {
        0
    }),
{
    let ca = t[a - 1];
    if ca.name@ == t[b - 1].name@ {
        if a != b {
            if a < b {
                assert(t[a - 1].name@ != t[b - 1].name@);
            } else {
                assert(t[b - 1].name@ != t[a - 1].name@);
            }
        }
    } else if ca.superclass is Some && 1 <= ca.superclass->Some_0@ < a && is_subclass(t, ca.superclass->Some_0@ as int, b) {
        law_subclass_transitive(t, ca.superclass->Some_0@ as int, b, c);
    } else {
        lemma_interface_subclass_transitive(t, a, b, c, ca.interfaces.len() as int);
    }
}

/// One of the first `k` interfaces of `a` is a subclass of `c` when one of them is a
/// subclass of `b`, itself a subclass of `c`.
proof fn lemma_interface_subclass_transitive(t: Seq<Class>, a: int, b: int, c: int, k: int)
    requires
        names_unique(t),
        some_interface_is_subclass(t, a, b, k),
        is_subclass(t, b, c),
    ensures
        some_interface_is_subclass(t, a, c, k),
    decreases a, k,
{
    let iface = t[a - 1].interfaces@[k - 1]@ as int;
    if some_interface_is_subclass(t, a, b, k - 1) {
        lemma_interface_subclass_transitive(t, a, b, c, k - 1);
    } else {
        law_subclass_transitive(t, iface, b, c);
    }
}

/// The position of the first field with a name holds a field with that name.
proof fn lemma_first_named(fields: Seq<ClassFileField>, name: Seq<char>)
    requires
        first_named(fields, name) is Some,
    ensures
        0 <= first_named(fields, name)->Some_0 < fields.len(),
        fields[first_named(fields, name)->Some_0].name@ == name,
    decreases fields.len(),
{
    if fields[0].name@ != name {
        lemma_first_named(fields.drop_first(), name);
    }
}

/// The field that `find_field` finds by name has that name, and is the field at the index
/// it gives.
pub proof fn law_find_field_at(t: Seq<Class>, id: int, name: Seq<char>)
    requires
        table_wf(t),
        find_field_spec(t, id, name) is Some,
    ensures
        field_at(t, id, find_field_spec(t, id, name)->Some_0.0) == Some(find_field_spec(t, id, name)->Some_0.1),
        find_field_spec(t, id, name)->Some_0.1.name@ == name,
        find_field_spec(t, id, name)->Some_0.0 >= 0,
    decreases id,
{
    let c = t[id - 1];
    assert(class_wf(t, id - 1));
    match first_named(c.fields@, name) {
        Some(k) => {
            lemma_first_named(c.fields@, name);
        },
        None => {
            let s = c.superclass->Some_0@ as int;
            law_find_field_at(t, s, name);
            let j = find_field_spec(t, s, name)->Some_0.0;
            lemma_field_at_all_fields(t, s, j);
            lemma_field_at_all_fields(t, s, 0);
        },
    }
}

/// `first_named` gives the first position of a field with the name, if there is one.
proof fn lemma_first_named_exact(fields: Seq<ClassFileField>, name: Seq<char>)
    ensures
        first_named(fields, name) matches Some(k) ==> 0 <= k < fields.len() && fields[k].name@ == name
            && forall|j: int| 0 <= j < k ==> #[trigger] fields[j].name@ != name,
        first_named(fields, name) is None <==> forall|j: int| 0 <= j < fields.len() ==> #[trigger] fields[j].name@ != name,
    decreases fields.len(),
{
    if fields.len() > 0 {
        lemma_first_named_exact(fields.drop_first(), name);
        if fields[0].name@ != name {
            assert forall|j: int| 1 <= j < fields.len() implies #[trigger] fields[j].name@ == fields.drop_first()[j - 1].name@ by {
            }
            if first_named(fields, name) is None {
                assert forall|j: int| 0 <= j < fields.len() implies #[trigger] fields[j].name@ != name by {
                    if j > 0 {
                        assert(fields[j] == fields.drop_first()[j - 1]);
                    }
                }
            } else {
                let k = first_named(fields, name)->Some_0;
                assert(fields[k] == fields.drop_first()[k - 1]);
                assert forall|j: int| 0 <= j < k implies #[trigger] fields[j].name@ != name by {
                    if j > 0 {
                        assert(fields[j] == fields.drop_first()[j - 1]);
                    }
                }
                let j0 = k;
                assert(!(forall|j: int| 0 <= j < fields.len() ==> #[trigger] fields[j].name@ != name)) by {
                    assert(fields[j0].name@ == name);
                }
            }
        }
    }
}

/// Whether class `id`, or one of its superclasses, declares a field named `name`.
pub open spec fn declared_in_chain(t: Seq<Class>, id: int, name: Seq<char>) -> bool
    decreases id,
{
    if has_class(t, id) {
        let c = t[id - 1];
        ||| exists|j: int| 0 <= j < c.fields@.len() && #[trigger] c.fields@[j].name@ == name
        ||| match c.superclass {
            Some(s) => 1 <= s@ < id && declared_in_chain(t, s@ as int, name),
            None => false,
        }
    } else {
        false
    }
}

/// Looking up a field by name: the first field of the class with that name is found,
/// before any field of a superclass (own fields shadow inherited ones), at the index that
/// follows the inherited fields; and nothing is found exactly when neither the class nor
/// any of its superclasses declares a field with that name.
pub proof fn law_find_field_shadowing(t: Seq<Class>, id: int, name: Seq<char>, j: int)
    requires
        has_class(t, id),
        0 <= j < t[id - 1].fields@.len(),
        t[id - 1].fields@[j].name@ == name,
        forall|i: int| 0 <= i < j ==> #[trigger] t[id - 1].fields@[i].name@ != name,
    ensures
        find_field_spec(t, id, name) == Some((t[id - 1].first_field_index + j, t[id - 1].fields@[j])),
{
    let fields = t[id - 1].fields@;
    lemma_first_named_exact(fields, name);
    if first_named(fields, name) is None {
        assert(fields[j].name@ == name);
    } else {
        let k = first_named(fields, name)->Some_0;
        if k < j {
            assert(fields[k].name@ != name);
        }
        if j < k {
            assert(fields[j].name@ != name);
        }
    }
}

/// A field lookup finds nothing exactly when no class of the superclass chain declares
/// a field with that name.
pub proof fn law_find_field_none(t: Seq<Class>, id: int, name: Seq<char>)
    ensures
        find_field_spec(t, id, name) is None <==> !declared_in_chain(t, id, name),
    decreases id,
{
    if has_class(t, id) {
        let c = t[id - 1];
        lemma_first_named_exact(c.fields@, name);
        match c.superclass {
            Some(s) => {
                if 1 <= s@ < id {
                    law_find_field_none(t, s@ as int, name);
                }
            },
            None => {},
        }
    }
}

/// The largest number of fields of the classes of `t`, and `extra` more, fit in a `usize`.
pub open spec fn fields_fit(t: Seq<Class>, extra: int) -> bool {
    &&& 0 <= extra <= usize::MAX
    &&& forall|i: int| 0 <= i < t.len() ==> #[trigger] t[i].num_total_fields + extra <= usize::MAX
}

/// Whether `i` is the position of the class loaded last with the given name.
pub open spec fn last_named(t: Seq<Class>, name: Seq<char>, i: int) -> bool {
    &&& 0 <= i < t.len()
    &&& t[i].name@ == name
    &&& forall|j: int| i < j < t.len() ==> t[j].name@ != name
}

/// The class loaded last with the given name, if any.
pub open spec fn class_named(t: Seq<Class>, name: Seq<char>) -> Option<Class> {
    if exists|i: int| last_named(t, name, i) {
        Some(t[choose|i: int| last_named(t, name, i)])
    } else {
        None
    }
}

/// At most one position is that of the class loaded last with a given name.
pub proof fn lemma_last_named_unique(t: Seq<Class>, name: Seq<char>, i: int, j: int)
    requires
        last_named(t, name, i),
        last_named(t, name, j),
    ensures
        i == j,
{
}

/// Loads classes, assigns them their ids and answers questions on the class hierarchy.
pub struct ClassManager {
    /// The class with id `i` is at position `i - 1`.
    classes: Vec<Class>,
}

impl ClassManager {
    /// The loaded classes, in the order of their ids.
    pub closed spec fn table(&self) -> Seq<Class> {
        self.classes@
    }

    pub closed spec fn wf(&self) -> bool {
        &&& table_wf(self.classes@)
        &&& self.classes@.len() < u32::MAX
    }

    /// What a well-formed class manager guarantees of its table.
    pub proof fn lemma_wf(&self)
        requires
            self.wf(),
        ensures
            table_wf(self.table()),
            self.table().len() < u32::MAX,
    {
    }

    pub fn new() -> (res: Self)
        ensures
            res.wf(),
            res.table() == Seq::<Class>::empty(),
    {
        ClassManager { classes: Vec::new() }
    }

    /// The id that the next loaded class gets.
    pub fn next_id(&self) -> (res: ClassId)
        requires
            self.wf(),
        ensures
            res@ == self.table().len() + 1,
    {
        ClassId::new((self.classes.len() + 1) as u32)
    }

    /// Whether the number of fields of each class, plus `extra`, fits in a `usize`.
    pub fn fields_fit_with(&self, extra: usize) -> (res: bool)
        ensures
            res == fields_fit(self.table(), extra as int),
    {
        let mut i: usize = 0;
        while i < self.classes.len()
            invariant
                i <= self.classes@.len(),
                forall|j: int| 0 <= j < i ==> #[trigger] self.classes@[j].num_total_fields + extra <= usize::MAX,
            decreases self.classes@.len() - i,
        {
            if self.classes[i].num_total_fields > usize::MAX - extra {
                return false;
            }
            i = i + 1;
        }
        true
    }

    /// Registers a loaded class, which must have the next id.
    pub(crate) fn register_loaded_class(&mut self, class: Class)
        requires
            old(self).wf(),
            class_wf(old(self).table().push(class), old(self).table().len() as int),
            old(self).table().len() + 1 < u32::MAX,
        ensures
            final(self).wf(),
            final(self).table() == old(self).table().push(class),
    {
        let ghost t = self.classes@;
        self.classes.push(class);
        proof {
            let t2 = self.classes@;
            assert forall|i: int| 0 <= i < t2.len() implies #[trigger] class_wf(t2, i) by {
                if i < t.len() {
                    assert(class_wf(t, i));
                    assert(t2[i] == t[i]);
                    match t[i].superclass {
                        Some(s) => {
                            assert(t2[s@ - 1] == t[s@ - 1]);
                        },
                        None => {},
                    }
                }
            }
        }
    }

    pub fn find_class_by_id(&self, id: ClassId) -> (res: Option<&Class>)
        ensures
            has_class(self.table(), id@ as int) ==> res == Some(&class_of(self.table(), id@ as int)),
            !has_class(self.table(), id@ as int) ==> res is None,
    {
        let n = id.as_u32();
        if n >= 1 && (n as usize) <= self.classes.len() {
            Some(&self.classes[(n - 1) as usize])
        } else {
            None
        }
    }

    /// The class registered last with the given name.
    pub fn find_class_by_name(&self, name: &str) -> (res: Option<&Class>)
        ensures
            match res {
                Some(c) => exists|i: int|
                    0 <= i < self.table().len() && self.table()[i] == *c && c.name@ == name@
                        && forall|j: int|
                        i < j < self.table().len() ==> self.table()[j].name@ != name@,
                None => forall|j: int|
                    0 <= j < self.table().len() ==> self.table()[j].name@ != name@,
            },
    {
        let wanted = name.to_owned();
        let mut i = self.classes.len();
        while i > 0
            invariant
                i <= self.classes.len(),
                wanted@ == name@,
                forall|j: int| i <= j < self.classes.len() ==> self.classes@[j].name@ != name@,
            decreases i,
        {
            i = i - 1;
            if self.classes[i].name == wanted {
                assert(self.table()[i as int] == self.classes@[i as int]);
                return Some(&self.classes[i]);
            }
        }
        None
    }

    /// Whether the class is the class `base` (compared by name), or a subclass of it, or
    /// implements it.
    pub fn is_subclass_of(&self, class: ClassId, base: ClassId) -> (res: bool)
        requires
            self.wf(),
            has_class(self.table(), class@ as int),
            has_class(self.table(), base@ as int),
        ensures
            res == is_subclass(self.table(), class@ as int, base@ as int),
        decreases class@,
    {
        let c = &self.classes[(class.as_u32() - 1) as usize];
        let b = &self.classes[(base.as_u32() - 1) as usize];
        proof {
            assert(class_wf(self.classes@, class@ - 1));
        }
        if c.name == b.name {
            return true;
        }
        let from_superclass = match c.superclass {
            Some(superclass) => self.is_subclass_of(superclass, base),
            None => false,
        };
        if from_superclass {
            return true;
        }
        let mut i: usize = 0;
        while i < c.interfaces.len()
            invariant
                self.wf(),
                0 <= i <= c.interfaces.len(),
                c == class_of(self.table(), class@ as int),
                class_wf(self.classes@, class@ - 1),
                has_class(self.table(), class@ as int),
                has_class(self.table(), base@ as int),
                !some_interface_is_subclass(self.table(), class@ as int, base@ as int, i as int),
            decreases c.interfaces.len() - i,
        {
            let interface = c.interfaces[i];
            assert(1 <= c.interfaces@[i as int]@ <= class@ - 1);
            if self.is_subclass_of(interface, base) {
                proof {
                    lemma_some_interface_monotonic(
                        self.table(),
                        class@ as int,
                        base@ as int,
                        i + 1,
                        c.interfaces.len() as int,
                    );
                }
                return true;
            }
            i = i + 1;
        }
        false
    }

    /// The field at `index` in the objects of the class.
    pub fn field_at_index(&self, class: ClassId, index: usize) -> (res: Option<&ClassFileField>)
        requires
            self.wf(),
            has_class(self.table(), class@ as int),
        ensures
            match res {
                Some(f) => field_at(self.table(), class@ as int, index as int) == Some(*f),
                None => field_at(self.table(), class@ as int, index as int) is None,
            },
        decreases class@,
    {
        let c = &self.classes[(class.as_u32() - 1) as usize];
        proof {
            assert(class_wf(self.classes@, class@ - 1));
        }
        if index < c.first_field_index {
            match c.superclass {
                Some(superclass) => self.field_at_index(superclass, index),
                None => None,
            }
        } else if index - c.first_field_index < c.fields.len() {
            Some(&c.fields[index - c.first_field_index])
        } else {
            None
        }
    }

    /// Finds the field with the given name that the class declares, or else the one that
    /// its closest superclass declaring such a field does; with the field's index.
    pub fn find_field(&self, class: ClassId, field_name: &str) -> (res: Option<
        (usize, &ClassFileField),
    >)
        requires
            self.wf(),
            has_class(self.table(), class@ as int),
        ensures
            match res {
                Some((i, f)) => find_field_spec(self.table(), class@ as int, field_name@) == Some(
                    (i as int, *f),
                ),
                None => find_field_spec(self.table(), class@ as int, field_name@) is None,
            },
        decreases class@,
    {
        let c = &self.classes[(class.as_u32() - 1) as usize];
        proof {
            assert(class_wf(self.classes@, class@ - 1));
        }
        let wanted = field_name.to_owned();
        let mut k: usize = 0;
        assert(c.fields@.skip(0) =~= c.fields@);
        while k < c.fields.len()
            invariant
                k <= c.fields.len(),
                c == class_of(self.table(), class@ as int),
                has_class(self.table(), class@ as int),
                class_wf(self.classes@, class@ - 1),
                wanted@ == field_name@,
                first_named(c.fields@, field_name@) == shifted(first_named(
                    c.fields@.skip(k as int),
                    field_name@,
                ), k as int),
            decreases c.fields.len() - k,
        {
            if c.fields[k].name == wanted {
                proof {
                    assert(c.fields@.skip(k as int)[0] == c.fields@[k as int]);
                }
                return Some((k + c.first_field_index, &c.fields[k]));
            }
            proof {
                assert(c.fields@.skip(k as int).drop_first() =~= c.fields@.skip(k + 1));
            }
            k = k + 1;
        }
        proof {
            assert(c.fields@.skip(k as int).len() == 0);
        }
        match c.superclass {
            Some(superclass) => self.find_field(superclass, field_name),
            None => None,
        }
    }

    /// All the fields of the objects of the class, those of its superclasses first.
    pub fn all_fields(&self, class: ClassId) -> (res: Vec<&ClassFileField>)
        requires
            self.wf(),
            has_class(self.table(), class@ as int),
        ensures
            res@.len() == all_fields(self.table(), class@ as int).len(),
            forall|i: int|
                0 <= i < res@.len() ==> *res@[i] == all_fields(self.table(), class@ as int)[i],
        decreases class@,
    {
        let c = &self.classes[(class.as_u32() - 1) as usize];
        proof {
            assert(class_wf(self.classes@, class@ - 1));
        }
        let mut fields: Vec<&ClassFileField> = match c.superclass {
            Some(superclass) => self.all_fields(superclass),
            None => Vec::new(),
        };
        let ghost inherited = match c.superclass {
            Some(s) => all_fields(self.table(), s@ as int),
            None => Seq::<ClassFileField>::empty(),
        };
        let start = fields.len();
        let mut k: usize = 0;
        while k < c.fields.len()
            invariant
                k <= c.fields.len(),
                start == inherited.len(),
                fields@.len() == start + k,
                forall|i: int| 0 <= i < start ==> *fields@[i] == inherited[i],
                forall|i: int| 0 <= i < k ==> *fields@[start + i] == c.fields@[i],
            decreases c.fields.len() - k,
        {
            fields.push(&c.fields[k]);
            k = k + 1;
        }
        proof {
            let expected = all_fields(self.table(), class@ as int);
            assert(expected =~= inherited + c.fields@);
        }
        fields
    }
}

} // verus!
