//! An evaluator for a small Lisp-like scripting language: values, syntax trees,
//! lexical scopes and the call dispatcher, with every outside effect handed to
//! the embedding program as a request and answered through a replay tape.
//!
//! What this evaluator holds: literals, names, scopes, `return`, `assert`,
//! `typeof`, `import`, `static_cast`, the `fs:` builtins and
//! `sys:breakpoint`. The special forms `define`, `var`, `set`, `drop`, `if`,
//! `match`, `while`, `lambda` and the operators `+ * / % - = != < > <= >= | & !`
//! are not held: a call of one is refused with `Error::Unsupported`. Every
//! other name is a library function, run by the embedding program. A failed
//! `assert` gives `Error::AssertionFailed`, which ends the program.

pub mod value;
pub mod scope;
pub mod node;
pub mod host;
pub mod semantics;
pub mod interpreter;
pub mod stdlib;
pub mod laws;
pub mod behaviour;
