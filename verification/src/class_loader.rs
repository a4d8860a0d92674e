//! A class loader: the classes it loaded, by name.
use vstd::prelude::*;

use crate::class::{Class, ClassId};

verus! {

/// The classes that a class loader loaded, by name; a class registered later replaces
/// one of the same name.
#[derive(Debug)]
pub struct ClassLoader {
    /// The names and the ids of the classes, each name once
    classes_by_name: Vec<(String, ClassId)>,
}

impl ClassLoader {
    /// The classes, by name.
    pub closed spec fn classes(&self) -> Map<Seq<char>, ClassId> {
        Map::new(
            |n: Seq<char>| exists|i: int| 0 <= i < self.classes_by_name@.len() && #[trigger] self.classes_by_name@[i].0@ == n,
            |n: Seq<char>|
                self.classes_by_name@[choose|i: int|
                    0 <= i < self.classes_by_name@.len() && #[trigger] self.classes_by_name@[i].0@ == n].1,
        )
    }

    /// Each name is registered once.
    pub closed spec fn wf(&self) -> bool {
        forall|i: int, j: int|
            0 <= i < self.classes_by_name@.len() && 0 <= j < self.classes_by_name@.len() && i != j
                ==> #[trigger] self.classes_by_name@[i].0@ != #[trigger] self.classes_by_name@[j].0@
    }

    pub fn new() -> (res: Self)
        ensures
            res.wf(),
            res.classes() == Map::<Seq<char>, ClassId>::empty(),
    {
        let res = ClassLoader { classes_by_name: Vec::new() };
        proof {
            assert(res.classes() =~= Map::<Seq<char>, ClassId>::empty());
        }
        res
    }

    /// Registers a class under its name, replacing the one registered under it before.
    pub fn register_class(&mut self, class: &Class)
        requires
            old(self).wf(),
        ensures
            final(self).wf(),
            final(self).classes() == old(self).classes().insert(class.name@, class.id),
    {
        let name = class.name.clone();
        let ghost es0 = self.classes_by_name@;
        let mut i: usize = 0;
        while i < self.classes_by_name.len()
            invariant
                i <= self.classes_by_name@.len(),
                self.classes_by_name@ == es0,
                es0 == old(self).classes_by_name@,
                old(self).wf(),
                name@ == class.name@,
                forall|j: int| 0 <= j < i ==> self.classes_by_name@[j].0@ != name@,
            decreases self.classes_by_name@.len() - i,
        {
            if self.classes_by_name[i].0 == name {
                self.classes_by_name.set(i, (name, class.id));
                proof {
                    let es = self.classes_by_name@;
                    assert(self.wf()) by {
                        assert forall|a: int, b: int| 0 <= a < es.len() && 0 <= b < es.len() && a != b
                            implies #[trigger] es[a].0@ != #[trigger] es[b].0@ by {
                            assert(es0[a].0@ != es0[b].0@);
                        }
                    }
                    assert(self.classes() =~= old(self).classes().insert(class.name@, class.id)) by {
                        assert forall|n: Seq<char>| #[trigger] self.classes().contains_key(n) == old(self).classes().insert(class.name@, class.id).contains_key(n) by {
                            if exists|k: int| 0 <= k < es0.len() && #[trigger] es0[k].0@ == n {
                                let k = choose|k: int| 0 <= k < es0.len() && #[trigger] es0[k].0@ == n;
                                assert(es[k].0@ == n);
                            }
                            if n == name@ {
                                assert(es[i as int].0@ == n);
                            }
                        }
                        assert forall|n: Seq<char>| #[trigger] self.classes().contains_key(n) implies self.classes()[n] == old(self).classes().insert(class.name@, class.id)[n] by {
                            let k = choose|k: int| 0 <= k < es.len() && #[trigger] es[k].0@ == n;
                            if n != name@ {
                                assert(k != i);
                                let k0 = choose|k0: int| 0 <= k0 < es0.len() && #[trigger] es0[k0].0@ == n;
                                assert(es[k0].0@ == n);
                            } else {
                                assert(es[i as int].0@ == n);
                            }
                        }
                    }
                }
                return;
            }
            i = i + 1;
        }
        self.classes_by_name.push((name, class.id));
        proof {
            let es = self.classes_by_name@;
            let last = es.len() - 1;
            assert(self.wf()) by {
                assert forall|a: int, b: int| 0 <= a < es.len() && 0 <= b < es.len() && a != b
                    implies #[trigger] es[a].0@ != #[trigger] es[b].0@ by {
                    if a < last && b < last {
                        assert(es0[a].0@ != es0[b].0@);
                    }
                }
            }
            assert(self.classes() =~= old(self).classes().insert(class.name@, class.id)) by {
                assert forall|n: Seq<char>| #[trigger] self.classes().contains_key(n) == old(self).classes().insert(class.name@, class.id).contains_key(n) by {
                    if exists|k: int| 0 <= k < es0.len() && #[trigger] es0[k].0@ == n {
                        let k = choose|k: int| 0 <= k < es0.len() && #[trigger] es0[k].0@ == n;
                        assert(es[k].0@ == n);
                    }
                    if n == name@ {
                        assert(es[last].0@ == n);
                    }
                    if exists|k: int| 0 <= k < es.len() && #[trigger] es[k].0@ == n {
                        let k = choose|k: int| 0 <= k < es.len() && #[trigger] es[k].0@ == n;
                        if k < last {
                            assert(es0[k].0@ == n);
                        }
                    }
                }
                assert forall|n: Seq<char>| #[trigger] self.classes().contains_key(n) implies self.classes()[n] == old(self).classes().insert(class.name@, class.id)[n] by {
                    let k = choose|k: int| 0 <= k < es.len() && #[trigger] es[k].0@ == n;
                    if n != name@ {
                        let k0 = choose|k0: int| 0 <= k0 < es0.len() && #[trigger] es0[k0].0@ == n;
                        assert(es[k0].0@ == n);
                    } else {
                        assert(es[last].0@ == n);
                    }
                }
            }
        }
    }

    /// The class registered under a name, if any.
    pub fn find_class_by_name(&self, name: &str) -> (res: Option<ClassId>)
        requires
            self.wf(),
        ensures
            self.classes().contains_key(name@) ==> res == Some(self.classes()[name@]),
            !self.classes().contains_key(name@) ==> res is None,
    {
        let wanted = name.to_owned();
        let mut i: usize = 0;
        while i < self.classes_by_name.len()
            invariant
                i <= self.classes_by_name@.len(),
                wanted@ == name@,
                self.wf(),
                forall|j: int| 0 <= j < i ==> self.classes_by_name@[j].0@ != name@,
            decreases self.classes_by_name@.len() - i,
        {
            if self.classes_by_name[i].0 == wanted {
                proof {
                    let es = self.classes_by_name@;
                    assert(es[i as int].0@ == name@);
                    let k = choose|k: int| 0 <= k < es.len() && #[trigger] es[k].0@ == name@;
                    assert(k == i);
                }
                return Some(self.classes_by_name[i].1);
            }
            i = i + 1;
        }
        None
    }
}

} // verus!
