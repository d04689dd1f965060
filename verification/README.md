# lib

An evaluator for a small Lisp-like scripting language, verified with Verus.

A program is a tree of `Node`s: scopes, calls, names and literals. The
`Interpreter` keeps a stack of lexical scopes and evaluates the tree; each
function's contract states its result and its effect on the interpreter
through the model in `src/semantics.rs`.

The evaluator holds literals, names, scopes, `return`, `assert`, `typeof`,
`import`, `static_cast`, the `fs:` builtins and `sys:breakpoint`. The special
forms `define`, `var`, `set`, `drop`, `if`, `match`, `while`, `lambda` and the
arithmetic, comparison and boolean operators are not held: a call of one is
refused with `Error::Unsupported`. Any other name is a library function that
the embedding program runs. A failed `assert` gives `Error::AssertionFailed`,
which ends the program: the embedding program stops on it.

Outside work (the file system, breakpoints, loading imported files, library
functions the evaluator does not hold, conversions) is never done by the
library. Evaluation asks for it with a `Request`; the interpreter reads the
answer from its tape of `Outcome`s, and when the tape is used up it stops with
`Error::Suspended`. The embedding program performs the request, appends the
answer and runs again. `src/laws.rs` proves, for such a replay, that a run
that stops has read the whole tape; that a run that does not stop gives the
same result on any longer tape; and that a run that stopped on a request,
run again on a longer tape, asks the requests it asked before in the same
order, then that request, and reads the first new answer for it.

Layout:

- `src/value.rs`, `src/node.rs`: values and syntax trees, with their models.
- `src/scope.rs`: scopes, finite maps kept in name order.
- `src/host.rs`: requests, outcomes and errors.
- `src/semantics.rs`: the meaning of evaluation, as spec functions.
- `src/interpreter.rs`, `src/stdlib/`: the evaluator and its builtins.
- `src/laws.rs`: properties proved of the semantics.
- `app/`: the embedding side, which performs the requests and replays.
