//! Finding a loaded class by its id.
use vstd::prelude::*;

use crate::class::{Class, ClassId};
use crate::class_manager::{class_of, has_class, ClassManager};
use crate::vm::Vm;

verus! {

/// Something that can find a loaded class by its id.
pub trait ClassByIdResolver {
    fn find_class_by_id(&self, class_id: ClassId) -> Option<&Class>;
}

impl ClassByIdResolver for ClassManager {
    fn find_class_by_id(&self, class_id: ClassId) -> (res: Option<&Class>)
        ensures
            has_class(self.table(), class_id@ as int) ==> res == Some(&class_of(self.table(), class_id@ as int)),
            !has_class(self.table(), class_id@ as int) ==> res is None,
    {
        ClassManager::find_class_by_id(self, class_id)
    }
}

impl ClassByIdResolver for Vm {
    fn find_class_by_id(&self, class_id: ClassId) -> (res: Option<&Class>)
        ensures
            has_class(self.classes(), class_id@ as int) ==> res == Some(&class_of(self.classes(), class_id@ as int)),
            !has_class(self.classes(), class_id@ as int) ==> res is None,
    {
        self.class_manager_ref().find_class_by_id(class_id)
    }
}

} // verus!
