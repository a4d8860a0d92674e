# rjvm_vm

The core of a small Java virtual machine, verified with Verus: the values and the
operand stack, a word-addressed heap with a copying garbage collector, the class
hierarchy and class loading, the call stacks, the native methods of the Java library
that the machine implements itself, and the machine that ties them together.

- `src/` is the library. Each public function states what it does in its contract;
  the `law_*` proof functions state properties that span several functions (a value
  popped right after a push, the objects that survive a collection, subclasses, ...).
- `tests/` exercises the library on concrete values.
- `app/` is the command-line launcher: it parses the arguments, opens the class path
  entries (`.jar` files and directories) and looks up the class to run.
