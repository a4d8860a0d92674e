//! The table of the native methods that the virtual machine implements, by class, name
//! and descriptor.
use vstd::prelude::*;

verus! {

/// A native method that the virtual machine implements.
#[derive(Debug, Clone, Copy, PartialEq, Eq, Structural)]
pub enum NativeMethod {
    /// Prints its argument: a stand-in for real output
    TempPrint,
    /// Does nothing
    Noop,
    NanoTime,
    CurrentTimeMillis,
    IdentityHashCode,
    Gc,
    ArrayCopy,
    FloatToRawIntBits,
    DoubleToRawLongBits,
    GetClassLoader,
    DesiredAssertionStatus,
    GetPrimitiveClass,
    FillInStackTrace,
    GetStackTraceDepth,
    GetStackTraceElement,
}

/// A registered native method, with the class, the name and the descriptor it answers to.
pub struct NativeMethodEntry {
    pub class_name: String,
    pub method_name: String,
    pub type_descriptor: String,
    pub method: NativeMethod,
}

/// A registered native method, as plain values.
pub type EntryView = (Seq<char>, Seq<char>, Seq<char>, NativeMethod);

/// Whether entry `i` is the last one registered for the class, name and descriptor.
pub open spec fn last_registered(entries: Seq<EntryView>, i: int, class_name: Seq<char>, method_name: Seq<char>, type_descriptor: Seq<char>) -> bool {
    &&& 0 <= i < entries.len()
    &&& entries[i].0 == class_name && entries[i].1 == method_name && entries[i].2 == type_descriptor
    &&& forall|j: int| i < j < entries.len() ==> !(entries[j].0 == class_name && entries[j].1 == method_name
        && entries[j].2 == type_descriptor)
}

/// The native method that answers to a class, a name and a descriptor: `tempPrint`, in
/// any class, is the printing method once it is registered; otherwise the method
/// registered last for them.
pub open spec fn lookup(
    entries: Seq<EntryView>,
    temp_print: bool,
    class_name: Seq<char>,
    method_name: Seq<char>,
    type_descriptor: Seq<char>,
) -> Option<NativeMethod> {
    if method_name == "tempPrint"@ {
        if temp_print {
            Some(NativeMethod::TempPrint)
        } else {
            None
        }
    } else if exists|i: int| last_registered(entries, i, class_name, method_name, type_descriptor) {
        Some(entries[choose|i: int| last_registered(entries, i, class_name, method_name, type_descriptor)].3)
    } else {
        None
    }
}

/// Once a native method is registered for a class, a name and a descriptor, it is the one
/// that answers to them (`tempPrint` aside, which answers to the printing method).
pub proof fn law_lookup_after_register(
    entries: Seq<EntryView>,
    temp_print: bool,
    class_name: Seq<char>,
    method_name: Seq<char>,
    type_descriptor: Seq<char>,
    method: NativeMethod,
)
    requires
        method_name != "tempPrint"@,
    ensures
        lookup(entries.push((class_name, method_name, type_descriptor, method)), temp_print, class_name, method_name, type_descriptor)
            == Some(method),
{
    let es = entries.push((class_name, method_name, type_descriptor, method));
    let n = entries.len() as int;
    assert(last_registered(es, n, class_name, method_name, type_descriptor));
    let c = choose|c: int| last_registered(es, c, class_name, method_name, type_descriptor);
    assert(c == n);
}

/// Registering a native method for other names leaves what answers to a class, a name and
/// a descriptor alone.
pub proof fn law_register_keeps_others(
    entries: Seq<EntryView>,
    temp_print: bool,
    entry: EntryView,
    class_name: Seq<char>,
    method_name: Seq<char>,
    type_descriptor: Seq<char>,
)
    requires
        !(entry.0 == class_name && entry.1 == method_name && entry.2 == type_descriptor),
    ensures
        lookup(entries.push(entry), temp_print, class_name, method_name, type_descriptor) == lookup(
            entries,
            temp_print,
            class_name,
            method_name,
            type_descriptor,
        ),
{
    let es = entries.push(entry);
    assert forall|i: int|
        last_registered(es, i, class_name, method_name, type_descriptor) <==> last_registered(
            entries,
            i,
            class_name,
            method_name,
            type_descriptor,
        ) by {
        if last_registered(entries, i, class_name, method_name, type_descriptor) {
            assert(es[i] == entries[i]);
            assert forall|j: int| i < j < es.len() implies !(es[j].0 == class_name && es[j].1 == method_name
                && es[j].2 == type_descriptor) by {
                if j < entries.len() {
                    assert(es[j] == entries[j]);
                }
            }
        }
        if last_registered(es, i, class_name, method_name, type_descriptor) {
            assert(i < entries.len());
            assert(es[i] == entries[i]);
            assert forall|j: int| i < j < entries.len() implies !(entries[j].0 == class_name && entries[j].1
                == method_name && entries[j].2 == type_descriptor) by {
                assert(es[j] == entries[j]);
            }
        }
    }
}

/// The native methods that the virtual machine knows, by class, name and descriptor.
pub struct NativeMethodsRegistry {
    entries: Vec<NativeMethodEntry>,
    temp_print: bool,
}

impl NativeMethodsRegistry {
    /// The registered methods, in the order of their registration.
    pub closed spec fn entries(&self) -> Seq<EntryView> {
        self.entries@.map_values(
            |e: NativeMethodEntry| (e.class_name@, e.method_name@, e.type_descriptor@, e.method),
        )
    }

    /// Whether the printing method is registered.
    pub closed spec fn has_temp_print(&self) -> bool {
        self.temp_print
    }

    pub fn new() -> (res: Self)
        ensures
            res.entries() == Seq::<EntryView>::empty(),
            !res.has_temp_print(),
    {
        let res = NativeMethodsRegistry { entries: Vec::new(), temp_print: false };
        proof {
            assert(res.entries() =~= Seq::<EntryView>::empty());
        }
        res
    }

    /// Registers a native method for a class, a name and a descriptor; it replaces the
    /// one registered before for them.
    pub fn register(&mut self, class_name: &str, method_name: &str, type_descriptor: &str, method: NativeMethod)
        ensures
            final(self).entries() == old(self).entries().push(
                (class_name@, method_name@, type_descriptor@, method),
            ),
            final(self).has_temp_print() == old(self).has_temp_print(),
    {
        self.entries.push(
            NativeMethodEntry {
                class_name: class_name.to_owned(),
                method_name: method_name.to_owned(),
                type_descriptor: type_descriptor.to_owned(),
                method,
            },
        );
        proof {
            assert(self.entries() =~= old(self).entries().push(
                (class_name@, method_name@, type_descriptor@, method),
            ));
        }
    }

    /// Registers the printing method, which answers to `tempPrint` in any class.
    pub fn register_temp_print(&mut self)
        ensures
            final(self).entries() == old(self).entries(),
            final(self).has_temp_print(),
    {
        self.temp_print = true;
    }

    /// The native method that answers to a class, a name and a descriptor, if any.
    pub fn get_method(&self, class_name: &str, method_name: &str, type_descriptor: &str) -> (res: Option<NativeMethod>)
        ensures
            res == lookup(self.entries(), self.has_temp_print(), class_name@, method_name@, type_descriptor@),
    {
        let wanted_class = class_name.to_owned();
        let wanted_method = method_name.to_owned();
        let wanted_descriptor = type_descriptor.to_owned();
        let temp_print_name = "tempPrint".to_owned();
        if wanted_method == temp_print_name {
            return if self.temp_print {
                Some(NativeMethod::TempPrint)
            } else {
                None
            };
        }
        let ghost es = self.entries();
        let mut i = self.entries.len();
        while i > 0
            invariant
                i <= self.entries@.len(),
                es == self.entries(),
                es.len() == self.entries@.len(),
                method_name@ != "tempPrint"@,
                wanted_class@ == class_name@,
                wanted_method@ == method_name@,
                wanted_descriptor@ == type_descriptor@,
                forall|j: int| i <= j < es.len() ==> !(es[j].0 == class_name@ && es[j].1 == method_name@
                    && es[j].2 == type_descriptor@),
            decreases i,
        {
            i = i - 1;
            let e = &self.entries[i];
            if e.class_name == wanted_class && e.method_name == wanted_method && e.type_descriptor == wanted_descriptor {
                proof {
                    assert(last_registered(es, i as int, class_name@, method_name@, type_descriptor@));
                    let c = choose|c: int| last_registered(es, c, class_name@, method_name@, type_descriptor@);
                    if c != i {
                        if c < i {
                            assert(!(es[i as int].0 == class_name@ && es[i as int].1 == method_name@ && es[i as int].2 == type_descriptor@));
                        }
                    }
                }
                return Some(e.method);
            }
        }
        None
    }
}

} // verus!
