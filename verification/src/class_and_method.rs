use vstd::prelude::*;

use crate::class::{Class, ClassFileMethod, ClassId};
use crate::class_manager::{class_of, class_wf, has_class, ClassManager};
use crate::field_type::{field_type_eq, FieldType};

verus! {

/// A method, and the class that declares it: the method is the one at position
/// `method` among those of the class.
#[derive(Debug, Clone, Copy, PartialEq, Eq, Structural)]
pub struct ClassAndMethod {
    pub class: ClassId,
    pub method: usize,
}

impl ClassAndMethod {
    /// Whether the class is loaded and declares the method.
    pub open spec fn valid(self, t: Seq<Class>) -> bool {
        has_class(t, self.class@ as int) && self.method < class_of(t, self.class@ as int).methods.len()
    }

    /// The method.
    pub open spec fn spec_method(self, t: Seq<Class>) -> ClassFileMethod {
        class_of(t, self.class@ as int).methods@[self.method as int]
    }

    /// The method, as the class manager holds it.
    pub fn method<'a>(&self, classes: &'a ClassManager) -> (res: &'a ClassFileMethod)
        requires
            classes.wf(),
            self.valid(classes.table()),
        ensures
            *res == self.spec_method(classes.table()),
    {
        let class = classes.find_class_by_id(self.class).unwrap();
        &class.methods[self.method]
    }

    /// The number of arguments of the method.
    pub fn num_arguments(&self, classes: &ClassManager) -> (res: usize)
        requires
            classes.wf(),
            self.valid(classes.table()),
        ensures
            res == self.spec_method(classes.table()).parsed_type_descriptor.parameters.len(),
    {
        self.method(classes).parsed_type_descriptor.parameters.len()
    }

    /// The type of the value the method returns; `None` for `void` methods.
    pub fn return_type<'a>(&self, classes: &'a ClassManager) -> (res: Option<&'a FieldType>)
        requires
            classes.wf(),
            self.valid(classes.table()),
        ensures
            match self.spec_method(classes.table()).parsed_type_descriptor.return_type {
                Some(t) => res == Some(&t),
                None => res is None,
            },
    {
        match &self.method(classes).parsed_type_descriptor.return_type {
            Some(t) => Some(t),
            None => None,
        }
    }

    pub fn is_static(&self, classes: &ClassManager) -> (res: bool)
        requires
            classes.wf(),
            self.valid(classes.table()),
        ensures
            res == self.spec_method(classes.table()).spec_is_static(),
    {
        self.method(classes).is_static()
    }

    pub fn is_native(&self, classes: &ClassManager) -> (res: bool)
        requires
            classes.wf(),
            self.valid(classes.table()),
        ensures
            res == self.spec_method(classes.table()).spec_is_native(),
    {
        self.method(classes).is_native()
    }

    pub fn is_void(&self, classes: &ClassManager) -> (res: bool)
        requires
            classes.wf(),
            self.valid(classes.table()),
        ensures
            res == (self.spec_method(classes.table()).parsed_type_descriptor.return_type is None),
    {
        self.method(classes).is_void()
    }

    /// Whether the method returns values of the given type.
    pub fn returns_type(&self, classes: &ClassManager, expected_type: &FieldType) -> (res: bool)
        requires
            classes.wf(),
            self.valid(classes.table()),
        ensures
            res == match self.spec_method(classes.table()).parsed_type_descriptor.return_type {
                Some(t) => field_type_eq(t, *expected_type),
                None => false,
            },
    {
        self.method(classes).returns_type(expected_type)
    }
}

} // verus!
