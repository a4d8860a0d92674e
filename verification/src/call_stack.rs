//! The frames of the methods being executed by one thread.
use vstd::prelude::*;

use crate::abstract_object::AbstractObject;
use crate::class::{Class, ClassFileMethodCode};
use crate::class_and_method::ClassAndMethod;
use crate::class_manager::{class_of, ClassManager};
use crate::stack_trace_element::StackTraceElement;
use crate::value::{
    collect_refs, lemma_moved_values, lemma_object_refs_moved, move_refs, moved_refs, moved_values, object_refs, Value,
};
use crate::value_stack::ValueStack;
use crate::vm_error::VmError;

verus! {

/// The state of a method being executed: its local variables and its operand stack.
#[derive(Debug)]
pub struct CallFrame {
    pub class_and_method: ClassAndMethod,
    pub locals: Vec<Value>,
    pub stack: ValueStack,
}

/// A frame of a call stack, by its position from the bottom of the stack.
#[derive(Debug, Clone, Copy, PartialEq, Eq, Structural)]
pub struct CallFrameReference(pub usize);

/// The objects that a frame refers to: those of its local variables, then those of its
/// operand stack.
pub open spec fn frame_refs(f: CallFrame) -> Seq<AbstractObject> {
    object_refs(f.locals@) + object_refs(f.stack@)
}

/// The objects that the frames refer to, bottom frame first.
pub open spec fn frames_refs(fs: Seq<CallFrame>) -> Seq<AbstractObject>
    decreases fs.len(),
{
    if fs.len() == 0 {
        Seq::empty()
    } else {
        frames_refs(fs.drop_last()) + frame_refs(fs.last())
    }
}

/// Whether frame `g` is frame `f` with its references replaced by their images under `m`.
pub open spec fn frame_moved(f: CallFrame, g: CallFrame, m: Map<AbstractObject, AbstractObject>) -> bool {
    &&& g.class_and_method == f.class_and_method
    &&& g.locals@ == moved_values(f.locals@, m)
    &&& g.stack@ == moved_values(f.stack@, m)
    &&& g.stack.max_size() == f.stack.max_size()
}

/// The local variables of a new frame: the receiver, if any, then the arguments, then
/// uninitialized values up to the number of local variables of the method.
pub open spec fn initial_locals(max_locals: int, receiver: Option<AbstractObject>, args: Seq<Value>) -> Seq<Value> {
    let given = match receiver {
        Some(r) => seq![Value::Object(r)] + args,
        None => args,
    };
    if given.len() < max_locals {
        given + Seq::new((max_locals - given.len()) as nat, |i: int| Value::Uninitialized)
    } else {
        given
    }
}

/// The methods of the frames, the last frame first.
pub open spec fn stack_methods(frames: Seq<CallFrame>) -> Seq<ClassAndMethod> {
    Seq::new(frames.len(), |i: int| frames[frames.len() - 1 - i].class_and_method)
}

/// The frames of the methods being executed, the one executing last.
pub struct CallStack {
    frames: Vec<CallFrame>,
}

impl CallStack {
    pub fn new() -> (res: Self)
        ensures
            res.frames() == Seq::<CallFrame>::empty(),
    {
        CallStack { frames: Vec::new() }
    }

    /// The frames, bottom first.
    pub closed spec fn frames(&self) -> Seq<CallFrame> {
        self.frames@
    }

    /// The code of the method to call, after checking that a receiver is given exactly to
    /// instance methods; native methods have no code.
    fn get_code(classes: &ClassManager, class_and_method: &ClassAndMethod, receiver: &Option<AbstractObject>) -> (res: Result<ClassFileMethodCode, VmError>)
        requires
            classes.wf(),
            class_and_method.valid(classes.table()),
            !class_and_method.spec_method(classes.table()).spec_is_native()
                ==> class_and_method.spec_method(classes.table()).code is Some,
        ensures
            ({
                let m = class_and_method.spec_method(classes.table());
                if m.spec_is_static() && receiver is Some {
                    res == Err::<ClassFileMethodCode, VmError>(VmError::ValidationException)
                } else if !m.spec_is_static() && receiver is None {
                    res == Err::<ClassFileMethodCode, VmError>(VmError::NullPointerException)
                } else if m.spec_is_native() {
                    res == Err::<ClassFileMethodCode, VmError>(VmError::NotImplemented)
                } else {
                    res == Ok::<ClassFileMethodCode, VmError>(m.code->Some_0)
                }
            }),
    {
        let method = class_and_method.method(classes);
        if method.is_static() {
            if receiver.is_some() {
                return Err(VmError::ValidationException);
            }
        } else if receiver.is_none() {
            return Err(VmError::NullPointerException);
        }
        if method.is_native() {
            return Err(VmError::NotImplemented);
        }
        Ok(method.code.unwrap())
    }

    /// The local variables of a new frame for a method with the given code.
    fn prepare_locals(code: ClassFileMethodCode, receiver: Option<AbstractObject>, args: Vec<Value>) -> (res: Vec<Value>)
        ensures
            res@ == initial_locals(code.max_locals as int, receiver, args@),
    {
        let mut locals: Vec<Value> = Vec::new();
        if let Some(r) = receiver {
            locals.push(Value::Object(r));
        }
        let ghost args0 = args@;
        let mut args = args;
        locals.append(&mut args);
        let ghost given = locals@;
        assert(given =~= match receiver {
            Some(r) => seq![Value::Object(r)] + args0,
            None => args0,
        });
        while locals.len() < code.max_locals as usize
            invariant
                given.len() <= locals@.len(),
                locals@.subrange(0, given.len() as int) == given,
                forall|i: int| given.len() <= i < locals@.len() ==> locals@[i] == Value::Uninitialized,
                given.len() < code.max_locals ==> locals@.len() <= code.max_locals,
                given.len() >= code.max_locals ==> locals@.len() == given.len(),
            decreases code.max_locals - locals@.len(),
        {
            locals.push(Value::Uninitialized);
        }
        proof {
            let expected = initial_locals(code.max_locals as int, receiver, args0);
            if given.len() < code.max_locals {
                assert(locals@ =~= expected);
            } else {
                assert(locals@ =~= expected);
            }
        }
        locals
    }

    /// Pushes a frame for a call of the method, with the receiver (for instance methods)
    /// and the arguments as its first local variables.
    pub fn add_frame(
        &mut self,
        classes: &ClassManager,
        class_and_method: ClassAndMethod,
        receiver: Option<AbstractObject>,
        args: Vec<Value>,
    ) -> (res: Result<CallFrameReference, VmError>)
        requires
            classes.wf(),
            class_and_method.valid(classes.table()),
            !class_and_method.spec_method(classes.table()).spec_is_native()
                ==> class_and_method.spec_method(classes.table()).code is Some,
        ensures
            ({
                let m = class_and_method.spec_method(classes.table());
                if m.spec_is_static() && receiver is Some {
                    res == Err::<CallFrameReference, VmError>(VmError::ValidationException) && final(self).frames() == old(self).frames()
                } else if !m.spec_is_static() && receiver is None {
                    res == Err::<CallFrameReference, VmError>(VmError::NullPointerException) && final(self).frames() == old(self).frames()
                } else if m.spec_is_native() {
                    res == Err::<CallFrameReference, VmError>(VmError::NotImplemented) && final(self).frames() == old(self).frames()
                } else {
                    let code = m.code->Some_0;
                    &&& res == Ok::<CallFrameReference, VmError>(CallFrameReference(old(self).frames().len() as usize))
                    &&& final(self).frames().len() == old(self).frames().len() + 1
                    &&& final(self).frames().drop_last() == old(self).frames()
                    &&& final(self).frames().last().class_and_method == class_and_method
                    &&& final(self).frames().last().locals@ == initial_locals(code.max_locals as int, receiver, args@)
                    &&& final(self).frames().last().stack@ == Seq::<Value>::empty()
                    &&& final(self).frames().last().stack.max_size() == code.max_stack
                }
            }),
    {
        let code = Self::get_code(classes, &class_and_method, &receiver)?;
        let locals = Self::prepare_locals(code, receiver, args);
        let new_frame = CallFrame {
            class_and_method,
            locals,
            stack: ValueStack::with_max_size(code.max_stack as usize),
        };
        let reference = CallFrameReference(self.frames.len());
        self.frames.push(new_frame);
        proof {
            assert(self.frames@.drop_last() =~= old(self).frames@);
        }
        Ok(reference)
    }

    /// Pops the last frame; fails when there is none.
    pub fn pop_frame(&mut self) -> (res: Result<(), VmError>)
        ensures
            old(self).frames().len() == 0 ==> res == Err::<(), VmError>(VmError::ValidationException)
                && final(self).frames() == old(self).frames(),
            old(self).frames().len() > 0 ==> res is Ok && final(self).frames() == old(self).frames().drop_last(),
    {
        match self.frames.pop() {
            Some(_) => Ok(()),
            None => Err(VmError::ValidationException),
        }
    }

    /// The frame that a reference designates.
    pub fn frame(&self, reference: CallFrameReference) -> (res: Option<&CallFrame>)
        ensures
            reference.0 < self.frames().len() ==> res == Some(&self.frames()[reference.0 as int]),
            reference.0 >= self.frames().len() ==> res is None,
    {
        if reference.0 < self.frames.len() {
            Some(&self.frames[reference.0])
        } else {
            None
        }
    }

    /// The stack trace: one element per frame, the last frame first. The line numbers
    /// are not known here.
    pub fn get_stack_trace_elements<'a>(&'a self, classes: &'a ClassManager) -> (res: Vec<StackTraceElement<'a>>)
        requires
            classes.wf(),
            forall|i: int| 0 <= i < self.frames().len() ==> #[trigger] self.frames()[i].class_and_method.valid(classes.table()),
        ensures
            res@.len() == self.frames().len(),
            forall|i: int|
                0 <= i < res@.len() ==> {
                    let cm = self.frames()[self.frames().len() - 1 - i].class_and_method;
                    let class = class_of(classes.table(), cm.class@ as int);
                    &&& (#[trigger] res@[i]).class_name@ == class.name@
                    &&& res@[i].method_name@ == cm.spec_method(classes.table()).name@
                    &&& *res@[i].source_file == class.source_file
                    &&& res@[i].line_number is None
                },
    {
        let mut elements: Vec<StackTraceElement<'a>> = Vec::new();
        let mut i: usize = self.frames.len();
        while i > 0
            invariant
                i <= self.frames@.len(),
                classes.wf(),
                forall|j: int| 0 <= j < self.frames().len() ==> #[trigger] self.frames()[j].class_and_method.valid(classes.table()),
                elements@.len() == self.frames@.len() - i,
                forall|k: int|
                    0 <= k < elements@.len() ==> {
                        let cm = self.frames()[self.frames().len() - 1 - k].class_and_method;
                        let class = class_of(classes.table(), cm.class@ as int);
                        &&& (#[trigger] elements@[k]).class_name@ == class.name@
                        &&& elements@[k].method_name@ == cm.spec_method(classes.table()).name@
                        &&& *elements@[k].source_file == class.source_file
                        &&& elements@[k].line_number is None
                    },
            decreases i,
        {
            i = i - 1;
            let cm = self.frames[i].class_and_method;
            proof {
                assert(self.frames()[i as int].class_and_method.valid(classes.table()));
            }
            let class = classes.find_class_by_id(cm.class).unwrap();
            let method = cm.method(classes);
            elements.push(
                StackTraceElement {
                    class_name: class.name.as_str(),
                    method_name: method.name.as_str(),
                    source_file: &class.source_file,
                    line_number: None,
                },
            );
        }
        elements
    }

    /// The methods of the frames, the last frame first.
    pub fn frame_methods(&self) -> (res: Vec<ClassAndMethod>)
        ensures
            res@ == stack_methods(self.frames()),
    {
        let mut methods: Vec<ClassAndMethod> = Vec::new();
        let mut i: usize = self.frames.len();
        while i > 0
            invariant
                i <= self.frames@.len(),
                methods@ == stack_methods(self.frames@).take(self.frames@.len() - i),
            decreases i,
        {
            i = i - 1;
            methods.push(self.frames[i].class_and_method);
            proof {
                assert(methods@ =~= stack_methods(self.frames@).take(self.frames@.len() - i));
            }
        }
        proof {
            assert(stack_methods(self.frames@).take(self.frames@.len() as int) =~= stack_methods(self.frames@));
        }
        methods
    }

    /// The objects that the frames refer to, bottom frame first: the roots of a garbage
    /// collection.
    pub fn gc_roots(&self) -> (res: Vec<AbstractObject>)
        ensures
            res@ == frames_refs(self.frames()),
    {
        let mut roots: Vec<AbstractObject> = Vec::new();
        let mut i: usize = 0;
        while i < self.frames.len()
            invariant
                i <= self.frames@.len(),
                roots@ == frames_refs(self.frames@.take(i as int)),
            decreases self.frames@.len() - i,
        {
            proof {
                assert(self.frames@.take(i + 1).drop_last() =~= self.frames@.take(i as int));
            }
            collect_refs(self.frames[i].locals.as_slice(), &mut roots);
            collect_refs(self.frames[i].stack.iter(), &mut roots);
            proof {
                assert(roots@ =~= frames_refs(self.frames@.take(i + 1)));
            }
            i = i + 1;
        }
        proof {
            assert(self.frames@.take(i as int) =~= self.frames@);
        }
        roots
    }

    /// Replaces the objects that the frames refer to, in the order of `gc_roots`, with
    /// those of `refs` from position `start`; returns the position after the last used.
    pub fn move_gc_roots(&mut self, refs: &Vec<AbstractObject>, start: usize, Ghost(m): Ghost<Map<AbstractObject, AbstractObject>>) -> (end: usize)
        requires
            start + frames_refs(old(self).frames()).len() <= refs@.len(),
            forall|k: int|
                0 <= k < frames_refs(old(self).frames()).len() ==> refs@[start + k] == m[#[trigger] frames_refs(
                    old(self).frames(),
                )[k]],
        ensures
            end == start + frames_refs(old(self).frames()).len(),
            final(self).frames().len() == old(self).frames().len(),
            forall|i: int|
                0 <= i < old(self).frames().len() ==> frame_moved(
                    #[trigger] old(self).frames()[i],
                    final(self).frames()[i],
                    m,
                ),
    {
        let ghost fs = self.frames@;
        let mut next = start;
        let mut i: usize = 0;
        while i < self.frames.len()
            invariant
                i <= self.frames@.len(),
                self.frames@.len() == fs.len(),
                fs == old(self).frames@,
                start + frames_refs(fs).len() <= refs@.len(),
                forall|k: int|
                    0 <= k < frames_refs(fs).len() ==> refs@[start + k] == m[#[trigger] frames_refs(fs)[k]],
                next == start + frames_refs(fs.take(i as int)).len(),
                forall|j: int| i <= j < fs.len() ==> self.frames@[j] == fs[j],
                forall|j: int| 0 <= j < i ==> frame_moved(#[trigger] fs[j], self.frames@[j], m),
            decreases self.frames@.len() - i,
        {
            proof {
                lemma_frames_refs_prefix(fs, i as int);
            }
            let ghost before = self.frames@;
            let mut frame = self.frames.remove(i);
            let ghost f0 = frame;
            let after_locals = move_refs(&mut frame.locals, refs, next);
            proof {
                let base = start + frames_refs(fs.take(i as int)).len();
                assert forall|k: int| 0 <= k < object_refs(f0.locals@).len() implies refs@[next + k] == m[#[trigger] object_refs(f0.locals@)[k]] by {
                    assert(frames_refs(fs)[frames_refs(fs.take(i as int)).len() + k] == object_refs(f0.locals@)[k]);
                }
                lemma_moved_values(f0.locals@, frame.locals@, refs@, next as int, m);
            }
            let mut stack_values: Vec<Value> = Vec::new();
            let mut c: usize = 0;
            while c < frame.stack.len()
                invariant
                    c <= frame.stack@.len(),
                    stack_values@ == frame.stack@.take(c as int),
                decreases frame.stack@.len() - c,
            {
                stack_values.push(*frame.stack.index(c));
                c = c + 1;
                proof {
                    assert(stack_values@ =~= frame.stack@.take(c as int));
                }
            }
            proof {
                assert(stack_values@ =~= frame.stack@);
            }
            let ghost s0 = stack_values@;
            let after_stack = move_refs(&mut stack_values, refs, after_locals);
            proof {
                assert forall|k: int| 0 <= k < object_refs(s0).len() implies refs@[after_locals + k] == m[#[trigger] object_refs(s0)[k]] by {
                    assert(frames_refs(fs)[frames_refs(fs.take(i as int)).len() + object_refs(f0.locals@).len() + k] == object_refs(s0)[k]);
                }
                lemma_moved_values(s0, stack_values@, refs@, after_locals as int, m);
            }
            let mut k: usize = 0;
            while k < stack_values.len()
                invariant
                    k <= stack_values@.len(),
                    frame.stack@.len() == stack_values@.len(),
                    frame.stack.max_size() == f0.stack.max_size(),
                    frame.class_and_method == f0.class_and_method,
                    frame.locals@ == moved_values(f0.locals@, m),
                    forall|j: int| 0 <= j < k ==> frame.stack@[j] == stack_values@[j],
                    forall|j: int| k <= j < stack_values@.len() ==> frame.stack@[j] == s0[j],
                    s0.len() == stack_values@.len(),
                decreases stack_values@.len() - k,
            {
                frame.stack.set(k, stack_values[k]);
                k = k + 1;
            }
            proof {
                assert(frame.stack@ =~= stack_values@);
            }
            proof {
                assert(frame_moved(f0, frame, m));
            }
            self.frames.insert(i, frame);
            proof {
                assert(self.frames@ =~= before.update(i as int, frame));
            }
            next = after_stack;
            i = i + 1;
        }
        proof {
            assert(fs.take(i as int) =~= fs);
        }
        next
    }
}

/// The objects of the first frames come first, followed by those of the next frame.
proof fn lemma_frames_refs_prefix(fs: Seq<CallFrame>, i: int)
    requires
        0 <= i < fs.len(),
    ensures
        frames_refs(fs.take(i + 1)) == frames_refs(fs.take(i)) + frame_refs(fs[i]),
        frames_refs(fs.take(i + 1)).len() <= frames_refs(fs).len(),
        forall|k: int|
            0 <= k < frames_refs(fs.take(i + 1)).len() ==> #[trigger] frames_refs(fs)[k] == frames_refs(
                fs.take(i + 1),
            )[k],
    decreases fs.len() - i,
{
    assert(fs.take(i + 1).drop_last() =~= fs.take(i));
    if i + 1 < fs.len() {
        lemma_frames_refs_prefix(fs, i + 1);
    } else {
        assert(fs.take(i + 1) =~= fs);
    }
}

/// Moving the references of each frame moves the objects that the frames refer to.
pub proof fn lemma_frames_refs_moved(fs: Seq<CallFrame>, gs: Seq<CallFrame>, m: Map<AbstractObject, AbstractObject>)
    requires
        gs.len() == fs.len(),
        forall|i: int| 0 <= i < fs.len() ==> frame_moved(#[trigger] fs[i], gs[i], m),
    ensures
        frames_refs(gs) == moved_refs(frames_refs(fs), m),
    decreases fs.len(),
{
    if fs.len() > 0 {
        let f = fs.last();
        let g = gs.last();
        assert(frame_moved(fs[fs.len() - 1], gs[gs.len() - 1], m));
        lemma_frames_refs_moved(fs.drop_last(), gs.drop_last(), m);
        lemma_object_refs_moved(f.locals@, m);
        lemma_object_refs_moved(f.stack@, m);
        let a = frames_refs(fs.drop_last());
        let b = object_refs(f.locals@);
        let c = object_refs(f.stack@);
        assert(moved_refs(a + (b + c), m) =~= moved_refs(a, m) + (moved_refs(b, m) + moved_refs(c, m)));
    } else {
        assert(frames_refs(gs) =~= moved_refs(frames_refs(fs), m));
    }
}

/// The objects that frames refer to are those that one of the frames refers to.
#[verifier::spinoff_prover]
pub proof fn lemma_frames_refs_contains(fs: Seq<CallFrame>, x: AbstractObject)
    ensures
        frames_refs(fs).contains(x) <==> exists|j: int| 0 <= j < fs.len() && #[trigger] frame_refs(fs[j]).contains(x),
    decreases fs.len(),
{
    if fs.len() > 0 {
        let init = fs.drop_last();
        lemma_frames_refs_contains(init, x);
        let a = frames_refs(init);
        let b = frame_refs(fs.last());
        assert(frames_refs(fs) == a + b);
        assert(frames_refs(fs).contains(x) ==> exists|j: int| 0 <= j < fs.len() && #[trigger] frame_refs(fs[j]).contains(x)) by {
            if frames_refs(fs).contains(x) {
                let k = choose|k: int| 0 <= k < (a + b).len() && (a + b)[k] == x;
                if k < a.len() {
                    assert(a[k] == x);
                    assert(a.contains(x));
                    let j = choose|j: int| 0 <= j < init.len() && #[trigger] frame_refs(init[j]).contains(x);
                    assert(fs[j] == init[j]);
                } else {
                    assert(b[k - a.len()] == x);
                    assert(frame_refs(fs[fs.len() - 1]).contains(x));
                }
            }
        }
        assert((exists|j: int| 0 <= j < fs.len() && #[trigger] frame_refs(fs[j]).contains(x)) ==> frames_refs(fs).contains(x)) by {
            if exists|j: int| 0 <= j < fs.len() && #[trigger] frame_refs(fs[j]).contains(x) {
                let j = choose|j: int| 0 <= j < fs.len() && #[trigger] frame_refs(fs[j]).contains(x);
                if j < fs.len() - 1 {
                    assert(init[j] == fs[j]);
                    assert(frame_refs(init[j]).contains(x));
                    assert(a.contains(x));
                    let k = choose|k: int| 0 <= k < a.len() && a[k] == x;
                    assert((a + b)[k] == x);
                } else {
                    let k = choose|k: int| 0 <= k < b.len() && b[k] == x;
                    assert((a + b)[a.len() + k] == x);
                }
            }
        }
    }
}

} // verus!
