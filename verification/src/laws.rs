use vstd::prelude::*;
use crate::value::{Val, Value};
use crate::scope::Scope;
use crate::node::{Kind, Tree};
use crate::host::{Req, Out, Fault};
use crate::semantics::{
    Machine, remaining, rewound, ask, lookup, sem_value, sem_scope, sem_calls, sem_call, sem_args,
    sem_builtin, sem_imports, sem_cast, sem_exists, sem_read_dir, sem_read_file, sem_file_op,
    sem_write_file, sem_breakpoint, sem_host_call, sem_see_dir, sem_entries, is_special_form,
};

verus! {

/// A step that reads answers never goes back on the tape: it keeps the
/// requests answered before it, and adds one for each answer it reads.
pub open spec fn advances(m: Machine, after: Machine) -> bool {
    &&& after.next >= m.next
    &&& after.answered.len() == m.answered.len() + (after.next - m.next)
    &&& forall|i: int| 0 <= i < m.answered.len() ==> #[trigger] after.answered[i] == m.answered[i]
}

/// Reading one answer moves past it and leaves the scopes alone.
pub proof fn lemma_ask_advances(tape: Seq<Out>, m: Machine, r: Req)
    ensures
        advances(m, ask(tape, m, r).1),
        ask(tape, m, r).1.scopes == m.scopes,
{
}

/// The builtins that do not run code read answers forward and leave the
/// scopes alone.
pub proof fn lemma_plain_builtins_advance(tape: Seq<Out>, m: Machine, name: Seq<char>, vals: Seq<Val>)
    ensures
        advances(m, sem_cast(tape, m, vals).1) && sem_cast(tape, m, vals).1.scopes == m.scopes,
        advances(m, sem_exists(tape, m, vals).1) && sem_exists(tape, m, vals).1.scopes == m.scopes,
        advances(m, sem_read_file(tape, m, vals).1) && sem_read_file(tape, m, vals).1.scopes == m.scopes,
        advances(m, sem_file_op(tape, m, vals, true).1) && sem_file_op(tape, m, vals, true).1.scopes == m.scopes,
        advances(m, sem_file_op(tape, m, vals, false).1) && sem_file_op(tape, m, vals, false).1.scopes == m.scopes,
        advances(m, sem_write_file(tape, m, vals).1) && sem_write_file(tape, m, vals).1.scopes == m.scopes,
        advances(m, sem_breakpoint(tape, m, vals).1) && sem_breakpoint(tape, m, vals).1.scopes == m.scopes,
        advances(m, sem_host_call(tape, m, name, vals).1) && sem_host_call(tape, m, name, vals).1.scopes == m.scopes,
{
}

/// Walking a directory never reads an answer twice, and leaves the scopes alone.
pub proof fn lemma_see_dir_advances(tape: Seq<Out>, m: Machine, path: Seq<char>)
    ensures
        advances(m, sem_see_dir(tape, m, path).1),
        sem_see_dir(tape, m, path).1.scopes == m.scopes,
    decreases remaining(tape, m), 0nat, 0nat,
{
    let (o, m1) = ask(tape, m, Req::ListEntries(path));
    match o {
        Ok(Out::Entries { entries, failure }) => lemma_entries_advance(tape, m1, entries, failure, 0, Seq::empty()),
        _ => {},
    }
}

/// Walking a directory's entries never reads an answer twice.
pub proof fn lemma_entries_advance(
    tape: Seq<Out>,
    m: Machine,
    entries: Seq<(Seq<char>, bool)>,
    failure: Option<Seq<char>>,
    i: int,
    acc: Seq<Seq<char>>,
)
    ensures
        advances(m, sem_entries(tape, m, entries, failure, i, acc).1),
        sem_entries(tape, m, entries, failure, i, acc).1.scopes == m.scopes,
    decreases remaining(tape, m), 1nat, entries.len() - i,
{
    if 0 <= i < entries.len() {
        if entries[i].1 {
            lemma_see_dir_advances(tape, m, entries[i].0);
            let (r, m1) = sem_see_dir(tape, m, entries[i].0);
            if r is Ok && !rewound(tape, m, m1) {
                lemma_entries_advance(tape, m1, entries, failure, i + 1, acc.push(entries[i].0) + r->Ok_0);
            }
        } else {
            lemma_entries_advance(tape, m, entries, failure, i + 1, acc.push(entries[i].0));
        }
    }
}

/// `fs:readDir` never reads an answer twice, and leaves the scopes alone.
pub proof fn lemma_read_dir_advances(tape: Seq<Out>, m: Machine, vals: Seq<Val>)
    ensures
        advances(m, sem_read_dir(tape, m, vals).1),
        sem_read_dir(tape, m, vals).1.scopes == m.scopes,
{
    if vals.len() == 1 {
        match vals[0] {
            Val::Str(s) => {
                let (o, m1) = ask(tape, m, Req::PathExists(s));
                lemma_see_dir_advances(tape, m1, s);
            },
            _ => {},
        }
    }
}

/// Evaluating a node never reads an answer twice.
pub proof fn lemma_value_advances(tape: Seq<Out>, m: Machine, t: Tree)
    ensures
        advances(m, sem_value(tape, m, t).1),
    decreases remaining(tape, m), t, 5nat, 0nat,
{
    match t.kind {
        Kind::Scope => lemma_scope_advances(tape, m, t),
        Kind::Call(f) => lemma_call_advances(tape, m, f, t.children),
        _ => {},
    }
}

/// Evaluating a scope never reads an answer twice.
pub proof fn lemma_scope_advances(tape: Seq<Out>, m: Machine, t: Tree)
    ensures
        advances(m, sem_scope(tape, m, t).1),
    decreases remaining(tape, m), t, 4nat, 0nat,
{
    let inner = Machine { scopes: m.scopes.push(Map::empty()), ..m };
    lemma_calls_advances(tape, inner, t.children, 0);
}

/// Running a body never reads an answer twice.
pub proof fn lemma_calls_advances(tape: Seq<Out>, m: Machine, cs: Seq<Tree>, i: int)
    ensures
        advances(m, sem_calls(tape, m, cs, i).1),
    decreases remaining(tape, m), cs, 3nat, cs.len() - i,
{
    if 0 <= i < cs.len() {
        match cs[i].kind {
            Kind::Call(s) => {
                lemma_call_advances(tape, m, s, cs[i].children);
                let (r, m1) = sem_call(tape, m, s, cs[i].children);
                if !(i == cs.len() - 1 || s == "return"@) && r is Ok && !rewound(tape, m, m1) {
                    lemma_calls_advances(tape, m1, cs, i + 1);
                }
            },
            _ => {},
        }
    }
}

/// Evaluating a call never reads an answer twice.
pub proof fn lemma_call_advances(tape: Seq<Out>, m: Machine, name: Seq<char>, args: Seq<Tree>)
    ensures
        advances(m, sem_call(tape, m, name, args).1),
    decreases remaining(tape, m), args, 3nat, 0nat,
{
    if name == "return"@ && args.len() >= 1 {
        lemma_value_advances(tape, m, args[0]);
    }
    lemma_args_advances(tape, m, args, 0, Seq::empty());
    let (r, m1) = sem_args(tape, m, args, 0, Seq::empty());
    if r is Ok && !rewound(tape, m, m1) {
        lemma_builtin_advances(tape, m1, name, r->Ok_0, args);
    }
}

/// Evaluating arguments never reads an answer twice.
pub proof fn lemma_args_advances(tape: Seq<Out>, m: Machine, args: Seq<Tree>, i: int, acc: Seq<Val>)
    ensures
        advances(m, sem_args(tape, m, args, i, acc).1),
    decreases remaining(tape, m), args, 2nat, args.len() - i,
{
    if 0 <= i < args.len() {
        lemma_value_advances(tape, m, args[i]);
        let (r, m1) = sem_value(tape, m, args[i]);
        if r is Ok && !rewound(tape, m, m1) {
            lemma_args_advances(tape, m1, args, i + 1, acc.push(r->Ok_0));
        }
    }
}

/// A builtin never reads an answer twice.
pub proof fn lemma_builtin_advances(tape: Seq<Out>, m: Machine, name: Seq<char>, vals: Seq<Val>, args: Seq<Tree>)
    ensures
        advances(m, sem_builtin(tape, m, name, vals, args).1),
    decreases remaining(tape, m), args, 1nat, 0nat,
{
    lemma_plain_builtins_advance(tape, m, name, vals);
    lemma_read_dir_advances(tape, m, vals);
    if name == "import"@ {
        lemma_imports_advance(tape, m, vals, 0, args);
    }
}

/// `import` never reads an answer twice.
pub proof fn lemma_imports_advance(tape: Seq<Out>, m: Machine, vals: Seq<Val>, j: int, args: Seq<Tree>)
    ensures
        advances(m, sem_imports(tape, m, vals, j, args).1),
    decreases remaining(tape, m), args, 0nat, vals.len() - j,
{
    if 0 <= j < vals.len() {
        match vals[j] {
            Val::Str(s) => {
                let (o1, m1) = ask(tape, m, Req::PathExists(s));
                if o1 == Ok::<Out, Fault>(Out::Bool(true)) {
                    let (o2, m2) = ask(tape, m1, Req::Load(s));
                    match o2 {
                        Ok(Out::Program(p)) => {
                            lemma_calls_advances(tape, m2, p.children, 0);
                            let (r, m3) = sem_calls(tape, m2, p.children, 0);
                            if r is Ok && !rewound(tape, m, m3) {
                                lemma_imports_advance(tape, m3, vals, j + 1, args);
                            }
                        },
                        _ => {},
                    }
                }
            },
            _ => {},
        }
    }
}

/// A step that never goes back on the tape is never taken for one that does.
pub proof fn lemma_advancing_is_not_rewound(tape: Seq<Out>, m: Machine, after: Machine)
    requires
        advances(m, after),
    ensures
        !rewound(tape, m, after),
{
}

/// The result of a step waits on an answer that the tape does not hold yet.
pub open spec fn suspended<T>(r: Result<T, Fault>) -> bool {
    r is Err && r->Err_0 is Suspended
}

/// Reading an answer that is on the tape gives the same answer on every longer
/// tape; the only way reading fails is by waiting for an answer.
pub proof fn lemma_ask_replays(tape: Seq<Out>, more: Seq<Out>, m: Machine, r: Req)
    ensures
        ask(tape, m, r).0 is Err ==> ask(tape, m, r).0 == Err::<Out, Fault>(Fault::Suspended(r)),
        !suspended(ask(tape, m, r).0) ==> ask(tape + more, m, r) == ask(tape, m, r),
{
    if m.next < tape.len() {
        assert((tape + more)[m.next as int] == tape[m.next as int]);
    }
}

/// The builtins that do not run code give, on any longer tape, what they gave
/// without waiting on the shorter one.
pub proof fn lemma_plain_builtins_replay(tape: Seq<Out>, more: Seq<Out>, m: Machine, name: Seq<char>, vals: Seq<Val>)
    ensures
        !suspended(sem_cast(tape, m, vals).0) ==> sem_cast(tape + more, m, vals) == sem_cast(tape, m, vals),
        !suspended(sem_exists(tape, m, vals).0) ==> sem_exists(tape + more, m, vals) == sem_exists(tape, m, vals),
        !suspended(sem_read_file(tape, m, vals).0) ==> sem_read_file(tape + more, m, vals) == sem_read_file(tape, m, vals),
        !suspended(sem_file_op(tape, m, vals, true).0) ==> sem_file_op(tape + more, m, vals, true) == sem_file_op(tape, m, vals, true),
        !suspended(sem_file_op(tape, m, vals, false).0) ==> sem_file_op(tape + more, m, vals, false) == sem_file_op(tape, m, vals, false),
        !suspended(sem_write_file(tape, m, vals).0) ==> sem_write_file(tape + more, m, vals) == sem_write_file(tape, m, vals),
        !suspended(sem_breakpoint(tape, m, vals).0) ==> sem_breakpoint(tape + more, m, vals) == sem_breakpoint(tape, m, vals),
        !suspended(sem_host_call(tape, m, name, vals).0) ==> sem_host_call(tape + more, m, name, vals) == sem_host_call(tape, m, name, vals),
{
    assert forall|m0: Machine, r: Req| #[trigger] ask(tape, m0, r).0 is Err || !suspended(ask(tape, m0, r).0) implies
        (ask(tape, m0, r).0 is Err ==> ask(tape, m0, r).0 == Err::<Out, Fault>(Fault::Suspended(r)))
        && (!suspended(ask(tape, m0, r).0) ==> ask(tape + more, m0, r) == ask(tape, m0, r)) by {
        lemma_ask_replays(tape, more, m0, r);
    }
}

/// Replay for directory walks.
pub proof fn lemma_see_dir_replays(tape: Seq<Out>, more: Seq<Out>, m: Machine, path: Seq<char>)
    ensures
        !suspended(sem_see_dir(tape, m, path).0) ==> sem_see_dir(tape + more, m, path) == sem_see_dir(tape, m, path),
    decreases remaining(tape, m), 0nat, 0nat,
{
    lemma_ask_replays(tape, more, m, Req::ListEntries(path));
    let (o, m1) = ask(tape, m, Req::ListEntries(path));
    match o {
        Ok(Out::Entries { entries, failure }) => lemma_entries_replay(tape, more, m1, entries, failure, 0, Seq::empty()),
        _ => {},
    }
}

/// Replay for the entries of a directory.
pub proof fn lemma_entries_replay(
    tape: Seq<Out>,
    more: Seq<Out>,
    m: Machine,
    entries: Seq<(Seq<char>, bool)>,
    failure: Option<Seq<char>>,
    i: int,
    acc: Seq<Seq<char>>,
)
    ensures
        !suspended(sem_entries(tape, m, entries, failure, i, acc).0) ==> sem_entries(tape + more, m, entries, failure, i, acc)
            == sem_entries(tape, m, entries, failure, i, acc),
    decreases remaining(tape, m), 1nat, entries.len() - i,
{
    if 0 <= i < entries.len() {
        if entries[i].1 {
            lemma_see_dir_replays(tape, more, m, entries[i].0);
            lemma_see_dir_advances(tape, m, entries[i].0);
            let (r, m1) = sem_see_dir(tape, m, entries[i].0);
            lemma_advancing_is_not_rewound(tape, m, m1);
            lemma_advancing_is_not_rewound(tape + more, m, m1);
            if r is Ok {
                lemma_entries_replay(tape, more, m1, entries, failure, i + 1, acc.push(entries[i].0) + r->Ok_0);
            }
        } else {
            lemma_entries_replay(tape, more, m, entries, failure, i + 1, acc.push(entries[i].0));
        }
    }
}

/// Replay for `fs:readDir`.
pub proof fn lemma_read_dir_replays(tape: Seq<Out>, more: Seq<Out>, m: Machine, vals: Seq<Val>)
    ensures
        !suspended(sem_read_dir(tape, m, vals).0) ==> sem_read_dir(tape + more, m, vals) == sem_read_dir(tape, m, vals),
{
    if vals.len() == 1 {
        match vals[0] {
            Val::Str(s) => {
                lemma_ask_replays(tape, more, m, Req::PathExists(s));
                let (o, m1) = ask(tape, m, Req::PathExists(s));
                lemma_see_dir_replays(tape, more, m1, s);
            },
            _ => {},
        }
    }
}

/// Replay: evaluating a node on a longer tape gives what it gave without
/// waiting on the shorter one.
pub proof fn lemma_value_replays(tape: Seq<Out>, more: Seq<Out>, m: Machine, t: Tree)
    ensures
        !suspended(sem_value(tape, m, t).0) ==> sem_value(tape + more, m, t) == sem_value(tape, m, t),
    decreases remaining(tape, m), t, 5nat, 0nat,
{
    match t.kind {
        Kind::Scope => lemma_scope_replays(tape, more, m, t),
        Kind::Call(f) => lemma_call_replays(tape, more, m, f, t.children),
        _ => {},
    }
}

/// Replay for scopes.
pub proof fn lemma_scope_replays(tape: Seq<Out>, more: Seq<Out>, m: Machine, t: Tree)
    ensures
        !suspended(sem_scope(tape, m, t).0) ==> sem_scope(tape + more, m, t) == sem_scope(tape, m, t),
    decreases remaining(tape, m), t, 4nat, 0nat,
{
    let inner = Machine { scopes: m.scopes.push(Map::empty()), ..m };
    lemma_calls_replays(tape, more, inner, t.children, 0);
}

/// Replay for bodies.
pub proof fn lemma_calls_replays(tape: Seq<Out>, more: Seq<Out>, m: Machine, cs: Seq<Tree>, i: int)
    ensures
        !suspended(sem_calls(tape, m, cs, i).0) ==> sem_calls(tape + more, m, cs, i) == sem_calls(tape, m, cs, i),
    decreases remaining(tape, m), cs, 3nat, cs.len() - i,
{
    if 0 <= i < cs.len() {
        match cs[i].kind {
            Kind::Call(s) => {
                lemma_call_replays(tape, more, m, s, cs[i].children);
                lemma_call_advances(tape, m, s, cs[i].children);
                let (r, m1) = sem_call(tape, m, s, cs[i].children);
                lemma_advancing_is_not_rewound(tape, m, m1);
                lemma_advancing_is_not_rewound(tape + more, m, m1);
                if !(i == cs.len() - 1 || s == "return"@) && r is Ok {
                    lemma_calls_replays(tape, more, m1, cs, i + 1);
                }
            },
            _ => {},
        }
    }
}

/// Replay for calls.
pub proof fn lemma_call_replays(tape: Seq<Out>, more: Seq<Out>, m: Machine, name: Seq<char>, args: Seq<Tree>)
    ensures
        !suspended(sem_call(tape, m, name, args).0) ==> sem_call(tape + more, m, name, args) == sem_call(tape, m, name, args),
    decreases remaining(tape, m), args, 3nat, 0nat,
{
    if name == "return"@ && args.len() >= 1 {
        lemma_value_replays(tape, more, m, args[0]);
    }
    lemma_args_replays(tape, more, m, args, 0, Seq::empty());
    lemma_args_advances(tape, m, args, 0, Seq::empty());
    let (r, m1) = sem_args(tape, m, args, 0, Seq::empty());
    lemma_advancing_is_not_rewound(tape, m, m1);
    lemma_advancing_is_not_rewound(tape + more, m, m1);
    if r is Ok {
        lemma_builtin_replays(tape, more, m1, name, r->Ok_0, args);
    }
}

/// Replay for argument lists.
pub proof fn lemma_args_replays(tape: Seq<Out>, more: Seq<Out>, m: Machine, args: Seq<Tree>, i: int, acc: Seq<Val>)
    ensures
        !suspended(sem_args(tape, m, args, i, acc).0) ==> sem_args(tape + more, m, args, i, acc) == sem_args(tape, m, args, i, acc),
    decreases remaining(tape, m), args, 2nat, args.len() - i,
{
    if 0 <= i < args.len() {
        lemma_value_replays(tape, more, m, args[i]);
        lemma_value_advances(tape, m, args[i]);
        let (r, m1) = sem_value(tape, m, args[i]);
        lemma_advancing_is_not_rewound(tape, m, m1);
        lemma_advancing_is_not_rewound(tape + more, m, m1);
        if r is Ok {
            lemma_args_replays(tape, more, m1, args, i + 1, acc.push(r->Ok_0));
        }
    }
}

/// Replay for builtins.
pub proof fn lemma_builtin_replays(tape: Seq<Out>, more: Seq<Out>, m: Machine, name: Seq<char>, vals: Seq<Val>, args: Seq<Tree>)
    ensures
        !suspended(sem_builtin(tape, m, name, vals, args).0) ==> sem_builtin(tape + more, m, name, vals, args) == sem_builtin(tape, m, name, vals, args),
    decreases remaining(tape, m), args, 1nat, 0nat,
{
    lemma_plain_builtins_replay(tape, more, m, name, vals);
    lemma_read_dir_replays(tape, more, m, vals);
    if name == "import"@ {
        lemma_imports_replay(tape, more, m, vals, 0, args);
    }
}

/// Replay for `import`.
pub proof fn lemma_imports_replay(tape: Seq<Out>, more: Seq<Out>, m: Machine, vals: Seq<Val>, j: int, args: Seq<Tree>)
    ensures
        !suspended(sem_imports(tape, m, vals, j, args).0) ==> sem_imports(tape + more, m, vals, j, args) == sem_imports(tape, m, vals, j, args),
    decreases remaining(tape, m), args, 0nat, vals.len() - j,
{
    if 0 <= j < vals.len() {
        match vals[j] {
            Val::Str(s) => {
                lemma_ask_replays(tape, more, m, Req::PathExists(s));
                let (o1, m1) = ask(tape, m, Req::PathExists(s));
                if o1 == Ok::<Out, Fault>(Out::Bool(true)) {
                    lemma_ask_replays(tape, more, m1, Req::Load(s));
                    let (o2, m2) = ask(tape, m1, Req::Load(s));
                    match o2 {
                        Ok(Out::Program(p)) => {
                            lemma_calls_replays(tape, more, m2, p.children, 0);
                            lemma_calls_advances(tape, m2, p.children, 0);
                            let (r, m3) = sem_calls(tape, m2, p.children, 0);
                            lemma_advancing_is_not_rewound(tape, m, m3);
                            lemma_advancing_is_not_rewound(tape + more, m, m3);
                            if r is Ok {
                                lemma_imports_replay(tape, more, m3, vals, j + 1, args);
                            }
                        },
                        _ => {},
                    }
                }
            },
            _ => {},
        }
    }
}

/// Within the tape, a step stays within it, and a step that waits for an
/// answer has read every answer the tape holds.
pub open spec fn reads_through(tape: Seq<Out>, m: Machine, after: Machine, waits: bool) -> bool {
    m.next <= tape.len() ==> after.next <= tape.len() && (waits ==> after.next == tape.len())
}

/// The builtins that do not run code wait only once the tape is read.
pub proof fn lemma_plain_builtins_read_through(tape: Seq<Out>, m: Machine, name: Seq<char>, vals: Seq<Val>)
    ensures
        reads_through(tape, m, sem_cast(tape, m, vals).1, suspended(sem_cast(tape, m, vals).0)),
        reads_through(tape, m, sem_exists(tape, m, vals).1, suspended(sem_exists(tape, m, vals).0)),
        reads_through(tape, m, sem_read_file(tape, m, vals).1, suspended(sem_read_file(tape, m, vals).0)),
        reads_through(tape, m, sem_file_op(tape, m, vals, true).1, suspended(sem_file_op(tape, m, vals, true).0)),
        reads_through(tape, m, sem_file_op(tape, m, vals, false).1, suspended(sem_file_op(tape, m, vals, false).0)),
        reads_through(tape, m, sem_write_file(tape, m, vals).1, suspended(sem_write_file(tape, m, vals).0)),
        reads_through(tape, m, sem_breakpoint(tape, m, vals).1, suspended(sem_breakpoint(tape, m, vals).0)),
        reads_through(tape, m, sem_host_call(tape, m, name, vals).1, suspended(sem_host_call(tape, m, name, vals).0)),
{
}

/// A directory walk waits only once the tape is read.
pub proof fn lemma_see_dir_reads_through(tape: Seq<Out>, m: Machine, path: Seq<char>)
    ensures
        reads_through(tape, m, sem_see_dir(tape, m, path).1, suspended(sem_see_dir(tape, m, path).0)),
    decreases remaining(tape, m), 0nat, 0nat,
{
    let (o, m1) = ask(tape, m, Req::ListEntries(path));
    match o {
        Ok(Out::Entries { entries, failure }) => lemma_entries_read_through(tape, m1, entries, failure, 0, Seq::empty()),
        _ => {},
    }
}

/// The entries of a directory wait only once the tape is read.
pub proof fn lemma_entries_read_through(
    tape: Seq<Out>,
    m: Machine,
    entries: Seq<(Seq<char>, bool)>,
    failure: Option<Seq<char>>,
    i: int,
    acc: Seq<Seq<char>>,
)
    ensures
        reads_through(tape, m, sem_entries(tape, m, entries, failure, i, acc).1, suspended(sem_entries(tape, m, entries, failure, i, acc).0)),
    decreases remaining(tape, m), 1nat, entries.len() - i,
{
    if 0 <= i < entries.len() {
        if entries[i].1 {
            lemma_see_dir_reads_through(tape, m, entries[i].0);
            let (r, m1) = sem_see_dir(tape, m, entries[i].0);
            if r is Ok && !rewound(tape, m, m1) {
                lemma_entries_read_through(tape, m1, entries, failure, i + 1, acc.push(entries[i].0) + r->Ok_0);
            }
        } else {
            lemma_entries_read_through(tape, m, entries, failure, i + 1, acc.push(entries[i].0));
        }
    }
}

/// `fs:readDir` waits only once the tape is read.
pub proof fn lemma_read_dir_reads_through(tape: Seq<Out>, m: Machine, vals: Seq<Val>)
    ensures
        reads_through(tape, m, sem_read_dir(tape, m, vals).1, suspended(sem_read_dir(tape, m, vals).0)),
{
    if vals.len() == 1 {
        match vals[0] {
            Val::Str(s) => {
                let (o, m1) = ask(tape, m, Req::PathExists(s));
                lemma_see_dir_reads_through(tape, m1, s);
            },
            _ => {},
        }
    }
}

/// A node's evaluation waits only once the tape is read.
pub proof fn lemma_value_reads_through(tape: Seq<Out>, m: Machine, t: Tree)
    ensures
        reads_through(tape, m, sem_value(tape, m, t).1, suspended(sem_value(tape, m, t).0)),
    decreases remaining(tape, m), t, 5nat, 0nat,
{
    match t.kind {
        Kind::Scope => lemma_scope_reads_through(tape, m, t),
        Kind::Call(f) => lemma_call_reads_through(tape, m, f, t.children),
        _ => {},
    }
}

/// A scope waits only once the tape is read.
pub proof fn lemma_scope_reads_through(tape: Seq<Out>, m: Machine, t: Tree)
    ensures
        reads_through(tape, m, sem_scope(tape, m, t).1, suspended(sem_scope(tape, m, t).0)),
    decreases remaining(tape, m), t, 4nat, 0nat,
{
    let inner = Machine { scopes: m.scopes.push(Map::empty()), ..m };
    lemma_calls_reads_through(tape, inner, t.children, 0);
}

/// A body waits only once the tape is read.
pub proof fn lemma_calls_reads_through(tape: Seq<Out>, m: Machine, cs: Seq<Tree>, i: int)
    ensures
        reads_through(tape, m, sem_calls(tape, m, cs, i).1, suspended(sem_calls(tape, m, cs, i).0)),
    decreases remaining(tape, m), cs, 3nat, cs.len() - i,
{
    if 0 <= i < cs.len() {
        match cs[i].kind {
            Kind::Call(s) => {
                lemma_call_reads_through(tape, m, s, cs[i].children);
                let (r, m1) = sem_call(tape, m, s, cs[i].children);
                if !(i == cs.len() - 1 || s == "return"@) && r is Ok && !rewound(tape, m, m1) {
                    lemma_calls_reads_through(tape, m1, cs, i + 1);
                }
            },
            _ => {},
        }
    }
}

/// A call waits only once the tape is read.
pub proof fn lemma_call_reads_through(tape: Seq<Out>, m: Machine, name: Seq<char>, args: Seq<Tree>)
    ensures
        reads_through(tape, m, sem_call(tape, m, name, args).1, suspended(sem_call(tape, m, name, args).0)),
    decreases remaining(tape, m), args, 3nat, 0nat,
{
    if name == "return"@ && args.len() >= 1 {
        lemma_value_reads_through(tape, m, args[0]);
    }
    lemma_args_reads_through(tape, m, args, 0, Seq::empty());
    let (r, m1) = sem_args(tape, m, args, 0, Seq::empty());
    if r is Ok && !rewound(tape, m, m1) {
        lemma_builtin_reads_through(tape, m1, name, r->Ok_0, args);
    }
}

/// Arguments wait only once the tape is read.
pub proof fn lemma_args_reads_through(tape: Seq<Out>, m: Machine, args: Seq<Tree>, i: int, acc: Seq<Val>)
    ensures
        reads_through(tape, m, sem_args(tape, m, args, i, acc).1, suspended(sem_args(tape, m, args, i, acc).0)),
    decreases remaining(tape, m), args, 2nat, args.len() - i,
{
    if 0 <= i < args.len() {
        lemma_value_reads_through(tape, m, args[i]);
        let (r, m1) = sem_value(tape, m, args[i]);
        if r is Ok && !rewound(tape, m, m1) {
            lemma_args_reads_through(tape, m1, args, i + 1, acc.push(r->Ok_0));
        }
    }
}

/// A builtin waits only once the tape is read.
pub proof fn lemma_builtin_reads_through(tape: Seq<Out>, m: Machine, name: Seq<char>, vals: Seq<Val>, args: Seq<Tree>)
    ensures
        reads_through(tape, m, sem_builtin(tape, m, name, vals, args).1, suspended(sem_builtin(tape, m, name, vals, args).0)),
    decreases remaining(tape, m), args, 1nat, 0nat,
{
    lemma_plain_builtins_read_through(tape, m, name, vals);
    lemma_read_dir_reads_through(tape, m, vals);
    if name == "import"@ {
        lemma_imports_read_through(tape, m, vals, 0, args);
    }
}

/// `import` waits only once the tape is read.
pub proof fn lemma_imports_read_through(tape: Seq<Out>, m: Machine, vals: Seq<Val>, j: int, args: Seq<Tree>)
    ensures
        reads_through(tape, m, sem_imports(tape, m, vals, j, args).1, suspended(sem_imports(tape, m, vals, j, args).0)),
    decreases remaining(tape, m), args, 0nat, vals.len() - j,
{
    if 0 <= j < vals.len() {
        match vals[j] {
            Val::Str(s) => {
                let (o1, m1) = ask(tape, m, Req::PathExists(s));
                if o1 == Ok::<Out, Fault>(Out::Bool(true)) {
                    let (o2, m2) = ask(tape, m1, Req::Load(s));
                    match o2 {
                        Ok(Out::Program(p)) => {
                            lemma_calls_reads_through(tape, m2, p.children, 0);
                            let (r, m3) = sem_calls(tape, m2, p.children, 0);
                            if r is Ok && !rewound(tape, m, m3) {
                                lemma_imports_read_through(tape, m3, vals, j + 1, args);
                            }
                        },
                        _ => {},
                    }
                }
            },
            _ => {},
        }
    }
}

/// The request a step that waits is waiting on.
pub open spec fn waiting_on<T>(r: Result<T, Fault>) -> Req {
    r->Err_0->Suspended_0
}

/// `after` goes on from `stopped`, where a run waited on `q`: it asked every
/// request answered before, in the same order, then `q`, and read the answer
/// that follows the ones read before.
pub open spec fn resumes(stopped: Machine, q: Req, after: Machine) -> bool {
    &&& stopped.answered.len() < after.answered.len()
    &&& after.answered[stopped.answered.len() as int] == q
    &&& forall|i: int| 0 <= i < stopped.answered.len() ==> #[trigger] after.answered[i] == stopped.answered[i]
    &&& after.next > stopped.next
}

/// Going on further keeps a resumption.
pub proof fn lemma_resumes_then_advances(stopped: Machine, q: Req, after: Machine, later: Machine)
    requires
        resumes(stopped, q, after),
        advances(after, later),
    ensures
        resumes(stopped, q, later),
{
    assert(later.answered[stopped.answered.len() as int] == after.answered[stopped.answered.len() as int]);
    assert forall|i: int| 0 <= i < stopped.answered.len() implies #[trigger] later.answered[i] == stopped.answered[i] by {
        assert(later.answered[i] == after.answered[i]);
    }
}

/// A request that waited, asked again with one more answer on the tape, is
/// answered by that answer.
pub proof fn lemma_ask_resumes(tape: Seq<Out>, more: Seq<Out>, m: Machine, r: Req)
    requires
        m.next <= tape.len(),
        more.len() > 0,
    ensures
        suspended(ask(tape, m, r).0) ==> resumes(ask(tape, m, r).1, r, ask(tape + more, m, r).1),
{
}

/// The builtins that do not run code, run again on a longer tape after
/// waiting, go on past the request they waited on.
pub proof fn lemma_plain_builtins_resume(tape: Seq<Out>, more: Seq<Out>, m: Machine, name: Seq<char>, vals: Seq<Val>)
    requires
        m.next <= tape.len(),
        more.len() > 0,
    ensures
        suspended(sem_cast(tape, m, vals).0) ==> resumes(sem_cast(tape, m, vals).1, waiting_on(sem_cast(tape, m, vals).0), sem_cast(tape + more, m, vals).1),
        suspended(sem_exists(tape, m, vals).0) ==> resumes(sem_exists(tape, m, vals).1, waiting_on(sem_exists(tape, m, vals).0), sem_exists(tape + more, m, vals).1),
        suspended(sem_read_file(tape, m, vals).0) ==> resumes(sem_read_file(tape, m, vals).1, waiting_on(sem_read_file(tape, m, vals).0), sem_read_file(tape + more, m, vals).1),
        suspended(sem_file_op(tape, m, vals, true).0) ==> resumes(sem_file_op(tape, m, vals, true).1, waiting_on(sem_file_op(tape, m, vals, true).0), sem_file_op(tape + more, m, vals, true).1),
        suspended(sem_file_op(tape, m, vals, false).0) ==> resumes(sem_file_op(tape, m, vals, false).1, waiting_on(sem_file_op(tape, m, vals, false).0), sem_file_op(tape + more, m, vals, false).1),
        suspended(sem_write_file(tape, m, vals).0) ==> resumes(sem_write_file(tape, m, vals).1, waiting_on(sem_write_file(tape, m, vals).0), sem_write_file(tape + more, m, vals).1),
        suspended(sem_breakpoint(tape, m, vals).0) ==> resumes(sem_breakpoint(tape, m, vals).1, waiting_on(sem_breakpoint(tape, m, vals).0), sem_breakpoint(tape + more, m, vals).1),
        suspended(sem_host_call(tape, m, name, vals).0) ==> resumes(sem_host_call(tape, m, name, vals).1, waiting_on(sem_host_call(tape, m, name, vals).0), sem_host_call(tape + more, m, name, vals).1),
{
    assert forall|m0: Machine, r: Req| m0.next <= tape.len() implies
        (#[trigger] ask(tape, m0, r).0 is Err ==> ask(tape, m0, r).0 == Err::<Out, Fault>(Fault::Suspended(r)))
        && (!suspended(ask(tape, m0, r).0) ==> ask(tape + more, m0, r) == ask(tape, m0, r))
        && (suspended(ask(tape, m0, r).0) ==> resumes(ask(tape, m0, r).1, r, ask(tape + more, m0, r).1))
        && (!suspended(ask(tape, m0, r).0) ==> ask(tape, m0, r).1.next <= tape.len()) by {
        lemma_ask_replays(tape, more, m0, r);
        lemma_ask_resumes(tape, more, m0, r);
    }
}

/// A directory walk, run again on a longer tape after waiting, goes on past
/// the request it waited on.
pub proof fn lemma_see_dir_resumes(tape: Seq<Out>, more: Seq<Out>, m: Machine, path: Seq<char>)
    requires
        m.next <= tape.len(),
        more.len() > 0,
    ensures
        suspended(sem_see_dir(tape, m, path).0) ==> resumes(sem_see_dir(tape, m, path).1, waiting_on(sem_see_dir(tape, m, path).0), sem_see_dir(tape + more, m, path).1),
    decreases remaining(tape, m), 0nat, 0nat,
{
    let q = Req::ListEntries(path);
    lemma_ask_replays(tape, more, m, q);
    lemma_ask_resumes(tape, more, m, q);
    let (o, m1) = ask(tape, m, q);
    let (o2, m2) = ask(tape + more, m, q);
    if suspended(o) {
        match o2 {
            Ok(Out::Entries { entries, failure }) => {
                lemma_entries_advance(tape + more, m2, entries, failure, 0, Seq::empty());
                lemma_resumes_then_advances(m1, q, m2, sem_entries(tape + more, m2, entries, failure, 0, Seq::empty()).1);
            },
            _ => {},
        }
    } else {
        match o {
            Ok(Out::Entries { entries, failure }) => lemma_entries_resume(tape, more, m1, entries, failure, 0, Seq::empty()),
            _ => {},
        }
    }
}

/// The entries of a directory, walked again on a longer tape after waiting,
/// go on past the request they waited on.
pub proof fn lemma_entries_resume(
    tape: Seq<Out>,
    more: Seq<Out>,
    m: Machine,
    entries: Seq<(Seq<char>, bool)>,
    failure: Option<Seq<char>>,
    i: int,
    acc: Seq<Seq<char>>,
)
    requires
        m.next <= tape.len(),
        more.len() > 0,
    ensures
        suspended(sem_entries(tape, m, entries, failure, i, acc).0) ==> resumes(
            sem_entries(tape, m, entries, failure, i, acc).1,
            waiting_on(sem_entries(tape, m, entries, failure, i, acc).0),
            sem_entries(tape + more, m, entries, failure, i, acc).1,
        ),
    decreases remaining(tape, m), 1nat, entries.len() - i,
{
    if 0 <= i < entries.len() {
        if entries[i].1 {
            let p = entries[i].0;
            lemma_see_dir_resumes(tape, more, m, p);
            lemma_see_dir_replays(tape, more, m, p);
            lemma_see_dir_advances(tape, m, p);
            lemma_see_dir_advances(tape + more, m, p);
            lemma_see_dir_reads_through(tape, m, p);
            let (r, m1) = sem_see_dir(tape, m, p);
            let (r2, m2) = sem_see_dir(tape + more, m, p);
            lemma_advancing_is_not_rewound(tape, m, m1);
            lemma_advancing_is_not_rewound(tape + more, m, m2);
            if suspended(r) {
                if r2 is Ok {
                    let rest = sem_entries(tape + more, m2, entries, failure, i + 1, acc.push(p) + r2->Ok_0);
                    lemma_entries_advance(tape + more, m2, entries, failure, i + 1, acc.push(p) + r2->Ok_0);
                    lemma_resumes_then_advances(m1, waiting_on(r), m2, rest.1);
                }
            } else if r is Ok {
                lemma_entries_resume(tape, more, m1, entries, failure, i + 1, acc.push(p) + r->Ok_0);
            }
        } else {
            lemma_entries_resume(tape, more, m, entries, failure, i + 1, acc.push(entries[i].0));
        }
    }
}

/// `fs:readDir`, run again on a longer tape after waiting, goes on past the
/// request it waited on.
pub proof fn lemma_read_dir_resumes(tape: Seq<Out>, more: Seq<Out>, m: Machine, vals: Seq<Val>)
    requires
        m.next <= tape.len(),
        more.len() > 0,
    ensures
        suspended(sem_read_dir(tape, m, vals).0) ==> resumes(sem_read_dir(tape, m, vals).1, waiting_on(sem_read_dir(tape, m, vals).0), sem_read_dir(tape + more, m, vals).1),
{
    if vals.len() == 1 {
        match vals[0] {
            Val::Str(s) => {
                let q = Req::PathExists(s);
                lemma_ask_replays(tape, more, m, q);
                lemma_ask_resumes(tape, more, m, q);
                let (o, m1) = ask(tape, m, q);
                let (o2, m2) = ask(tape + more, m, q);
                if suspended(o) {
                    if o2 == Ok::<Out, Fault>(Out::Bool(true)) {
                        lemma_see_dir_advances(tape + more, m2, s);
                        lemma_resumes_then_advances(m1, q, m2, sem_see_dir(tape + more, m2, s).1);
                    }
                } else {
                    lemma_see_dir_resumes(tape, more, m1, s);
                }
            },
            _ => {},
        }
    }
}

/// A node, evaluated again on a longer tape after waiting, goes on past the
/// request it waited on.
pub proof fn lemma_value_resumes(tape: Seq<Out>, more: Seq<Out>, m: Machine, t: Tree)
    requires
        m.next <= tape.len(),
        more.len() > 0,
    ensures
        suspended(sem_value(tape, m, t).0) ==> resumes(sem_value(tape, m, t).1, waiting_on(sem_value(tape, m, t).0), sem_value(tape + more, m, t).1),
    decreases remaining(tape, m), t, 5nat, 0nat,
{
    match t.kind {
        Kind::Scope => lemma_scope_resumes(tape, more, m, t),
        Kind::Call(f) => lemma_call_resumes(tape, more, m, f, t.children),
        _ => {},
    }
}

/// A scope, run again on a longer tape after waiting, goes on past the
/// request it waited on.
pub proof fn lemma_scope_resumes(tape: Seq<Out>, more: Seq<Out>, m: Machine, t: Tree)
    requires
        m.next <= tape.len(),
        more.len() > 0,
    ensures
        suspended(sem_scope(tape, m, t).0) ==> resumes(sem_scope(tape, m, t).1, waiting_on(sem_scope(tape, m, t).0), sem_scope(tape + more, m, t).1),
    decreases remaining(tape, m), t, 4nat, 0nat,
{
    let inner = Machine { scopes: m.scopes.push(Map::empty()), ..m };
    lemma_calls_resumes(tape, more, inner, t.children, 0);
}

/// A body, run again on a longer tape after waiting, goes on past the
/// request it waited on.
pub proof fn lemma_calls_resumes(tape: Seq<Out>, more: Seq<Out>, m: Machine, cs: Seq<Tree>, i: int)
    requires
        m.next <= tape.len(),
        more.len() > 0,
    ensures
        suspended(sem_calls(tape, m, cs, i).0) ==> resumes(sem_calls(tape, m, cs, i).1, waiting_on(sem_calls(tape, m, cs, i).0), sem_calls(tape + more, m, cs, i).1),
    decreases remaining(tape, m), cs, 3nat, cs.len() - i,
{
    if 0 <= i < cs.len() {
        match cs[i].kind {
            Kind::Call(s) => {
                let args = cs[i].children;
                lemma_call_resumes(tape, more, m, s, args);
                lemma_call_replays(tape, more, m, s, args);
                lemma_call_advances(tape, m, s, args);
                lemma_call_advances(tape + more, m, s, args);
                lemma_call_reads_through(tape, m, s, args);
                let (r, m1) = sem_call(tape, m, s, args);
                let (r2, m2) = sem_call(tape + more, m, s, args);
                lemma_advancing_is_not_rewound(tape, m, m1);
                lemma_advancing_is_not_rewound(tape + more, m, m2);
                if !(i == cs.len() - 1 || s == "return"@) {
                    if suspended(r) {
                        if r2 is Ok {
                            lemma_calls_advances(tape + more, m2, cs, i + 1);
                            lemma_resumes_then_advances(m1, waiting_on(r), m2, sem_calls(tape + more, m2, cs, i + 1).1);
                        }
                    } else if r is Ok {
                        lemma_calls_resumes(tape, more, m1, cs, i + 1);
                    }
                }
            },
            _ => {},
        }
    }
}

/// A call, evaluated again on a longer tape after waiting, goes on past the
/// request it waited on.
pub proof fn lemma_call_resumes(tape: Seq<Out>, more: Seq<Out>, m: Machine, name: Seq<char>, args: Seq<Tree>)
    requires
        m.next <= tape.len(),
        more.len() > 0,
    ensures
        suspended(sem_call(tape, m, name, args).0) ==> resumes(sem_call(tape, m, name, args).1, waiting_on(sem_call(tape, m, name, args).0), sem_call(tape + more, m, name, args).1),
    decreases remaining(tape, m), args, 3nat, 0nat,
{
    if name == "return"@ && args.len() >= 1 {
        lemma_value_resumes(tape, more, m, args[0]);
    }
    lemma_args_resumes(tape, more, m, args, 0, Seq::empty());
    lemma_args_replays(tape, more, m, args, 0, Seq::empty());
    lemma_args_advances(tape, m, args, 0, Seq::empty());
    lemma_args_advances(tape + more, m, args, 0, Seq::empty());
    lemma_args_reads_through(tape, m, args, 0, Seq::empty());
    let (r, m1) = sem_args(tape, m, args, 0, Seq::empty());
    let (r2, m2) = sem_args(tape + more, m, args, 0, Seq::empty());
    lemma_advancing_is_not_rewound(tape, m, m1);
    lemma_advancing_is_not_rewound(tape + more, m, m2);
    if suspended(r) {
        if r2 is Ok {
            lemma_builtin_advances(tape + more, m2, name, r2->Ok_0, args);
            lemma_resumes_then_advances(m1, waiting_on(r), m2, sem_builtin(tape + more, m2, name, r2->Ok_0, args).1);
        }
    } else if r is Ok {
        lemma_builtin_resumes(tape, more, m1, name, r->Ok_0, args);
    }
}

/// Arguments, evaluated again on a longer tape after waiting, go on past the
/// request they waited on.
pub proof fn lemma_args_resumes(tape: Seq<Out>, more: Seq<Out>, m: Machine, args: Seq<Tree>, i: int, acc: Seq<Val>)
    requires
        m.next <= tape.len(),
        more.len() > 0,
    ensures
        suspended(sem_args(tape, m, args, i, acc).0) ==> resumes(sem_args(tape, m, args, i, acc).1, waiting_on(sem_args(tape, m, args, i, acc).0), sem_args(tape + more, m, args, i, acc).1),
    decreases remaining(tape, m), args, 2nat, args.len() - i,
{
    if 0 <= i < args.len() {
        lemma_value_resumes(tape, more, m, args[i]);
        lemma_value_replays(tape, more, m, args[i]);
        lemma_value_advances(tape, m, args[i]);
        lemma_value_advances(tape + more, m, args[i]);
        lemma_value_reads_through(tape, m, args[i]);
        let (r, m1) = sem_value(tape, m, args[i]);
        let (r2, m2) = sem_value(tape + more, m, args[i]);
        lemma_advancing_is_not_rewound(tape, m, m1);
        lemma_advancing_is_not_rewound(tape + more, m, m2);
        if suspended(r) {
            if r2 is Ok {
                lemma_args_advances(tape + more, m2, args, i + 1, acc.push(r2->Ok_0));
                lemma_resumes_then_advances(m1, waiting_on(r), m2, sem_args(tape + more, m2, args, i + 1, acc.push(r2->Ok_0)).1);
            }
        } else if r is Ok {
            lemma_args_resumes(tape, more, m1, args, i + 1, acc.push(r->Ok_0));
        }
    }
}

/// A builtin, run again on a longer tape after waiting, goes on past the
/// request it waited on.
pub proof fn lemma_builtin_resumes(tape: Seq<Out>, more: Seq<Out>, m: Machine, name: Seq<char>, vals: Seq<Val>, args: Seq<Tree>)
    requires
        m.next <= tape.len(),
        more.len() > 0,
    ensures
        suspended(sem_builtin(tape, m, name, vals, args).0) ==> resumes(sem_builtin(tape, m, name, vals, args).1, waiting_on(sem_builtin(tape, m, name, vals, args).0), sem_builtin(tape + more, m, name, vals, args).1),
    decreases remaining(tape, m), args, 1nat, 0nat,
{
    lemma_plain_builtins_resume(tape, more, m, name, vals);
    lemma_read_dir_resumes(tape, more, m, vals);
    if name == "import"@ {
        lemma_imports_resume(tape, more, m, vals, 0, args);
    }
}

/// `import`, run again on a longer tape after waiting, goes on past the
/// request it waited on.
pub proof fn lemma_imports_resume(tape: Seq<Out>, more: Seq<Out>, m: Machine, vals: Seq<Val>, j: int, args: Seq<Tree>)
    requires
        m.next <= tape.len(),
        more.len() > 0,
    ensures
        suspended(sem_imports(tape, m, vals, j, args).0) ==> resumes(sem_imports(tape, m, vals, j, args).1, waiting_on(sem_imports(tape, m, vals, j, args).0), sem_imports(tape + more, m, vals, j, args).1),
    decreases remaining(tape, m), args, 0nat, vals.len() - j,
{
    if 0 <= j < vals.len() {
        match vals[j] {
            Val::Str(s) => {
                let q1 = Req::PathExists(s);
                lemma_ask_replays(tape, more, m, q1);
                lemma_ask_resumes(tape, more, m, q1);
                let (o1, m1) = ask(tape, m, q1);
                let (o1b, m1b) = ask(tape + more, m, q1);
                if suspended(o1) {
                    if o1b == Ok::<Out, Fault>(Out::Bool(true)) {
                        let (o2b, m2b) = ask(tape + more, m1b, Req::Load(s));
                        match o2b {
                            Ok(Out::Program(p)) => {
                                lemma_calls_advances(tape + more, m2b, p.children, 0);
                                let (rb, m3b) = sem_calls(tape + more, m2b, p.children, 0);
                                lemma_advancing_is_not_rewound(tape + more, m, m3b);
                                if rb is Ok {
                                    lemma_imports_advance(tape + more, m3b, vals, j + 1, args);
                                }
                                lemma_resumes_then_advances(m1, q1, m1b, m2b);
                                lemma_resumes_then_advances(m1, q1, m2b, m3b);
                                if rb is Ok {
                                    lemma_resumes_then_advances(m1, q1, m3b, sem_imports(tape + more, m3b, vals, j + 1, args).1);
                                }
                            },
                            _ => {
                                lemma_resumes_then_advances(m1, q1, m1b, m2b);
                            },
                        }
                    }
                } else if o1 == Ok::<Out, Fault>(Out::Bool(true)) {
                    let q2 = Req::Load(s);
                    lemma_ask_replays(tape, more, m1, q2);
                    lemma_ask_resumes(tape, more, m1, q2);
                    let (o2, m2) = ask(tape, m1, q2);
                    let (o2b, m2b) = ask(tape + more, m1, q2);
                    if suspended(o2) {
                        match o2b {
                            Ok(Out::Program(p)) => {
                                lemma_calls_advances(tape + more, m2b, p.children, 0);
                                let (rb, m3b) = sem_calls(tape + more, m2b, p.children, 0);
                                lemma_advancing_is_not_rewound(tape + more, m, m3b);
                                lemma_resumes_then_advances(m2, q2, m2b, m3b);
                                if rb is Ok {
                                    lemma_imports_advance(tape + more, m3b, vals, j + 1, args);
                                    lemma_resumes_then_advances(m2, q2, m3b, sem_imports(tape + more, m3b, vals, j + 1, args).1);
                                }
                            },
                            _ => {},
                        }
                    } else {
                        match o2 {
                            Ok(Out::Program(p)) => {
                                lemma_calls_resumes(tape, more, m2, p.children, 0);
                                lemma_calls_replays(tape, more, m2, p.children, 0);
                                lemma_calls_advances(tape, m2, p.children, 0);
                                lemma_calls_advances(tape + more, m2, p.children, 0);
                                lemma_calls_reads_through(tape, m2, p.children, 0);
                                let (r, m3) = sem_calls(tape, m2, p.children, 0);
                                let (rb, m3b) = sem_calls(tape + more, m2, p.children, 0);
                                lemma_advancing_is_not_rewound(tape, m, m3);
                                lemma_advancing_is_not_rewound(tape + more, m, m3b);
                                if suspended(r) {
                                    if rb is Ok {
                                        lemma_imports_advance(tape + more, m3b, vals, j + 1, args);
                                        lemma_resumes_then_advances(m3, waiting_on(r), m3b, sem_imports(tape + more, m3b, vals, j + 1, args).1);
                                    }
                                } else if r is Ok {
                                    lemma_imports_resume(tape, more, m3, vals, j + 1, args);
                                }
                            },
                            _ => {},
                        }
                    }
                }
            },
            _ => {},
        }
    }
}

/// Replaying a program. A run never goes back on the tape. A run that waits
/// for an answer has read the whole tape. A run that does not wait gives the
/// same value and state on any longer tape. A run that waited on a request,
/// run again on a tape with more answers, asks every request it asked before
/// in the same order, then the one it waited on, and reads the first new
/// answer for it: so each round of the replay loop goes past the point where
/// the last round stopped.
pub proof fn law_program_replays(tape: Seq<Out>, more: Seq<Out>, m: Machine, program: Tree)
    requires
        m.next <= tape.len(),
    ensures
        suspended(sem_scope(tape, m, program).0) ==> sem_scope(tape, m, program).1.next == tape.len(),
        !suspended(sem_scope(tape, m, program).0) ==> sem_scope(tape + more, m, program) == sem_scope(tape, m, program),
        suspended(sem_scope(tape, m, program).0) && more.len() > 0 ==> resumes(
            sem_scope(tape, m, program).1,
            waiting_on(sem_scope(tape, m, program).0),
            sem_scope(tape + more, m, program).1,
        ),
        advances(m, sem_scope(tape, m, program).1),
{
    lemma_scope_reads_through(tape, m, program);
    lemma_scope_replays(tape, more, m, program);
    lemma_scope_advances(tape, m, program);
    if more.len() > 0 {
        lemma_scope_resumes(tape, more, m, program);
    }
}

/// A name is looked up in the innermost scope first: a scope pushed on top
/// hides the bindings below it of the names it binds, and no others.
pub proof fn law_innermost_scope_wins(
    scopes: Seq<Map<Seq<char>, (Val, bool)>>,
    inner: Map<Seq<char>, (Val, bool)>,
    id: Seq<char>,
)
    ensures
        inner.contains_key(id) ==> lookup(scopes.push(inner), id) == Some(inner[id].0),
        !inner.contains_key(id) ==> lookup(scopes.push(inner), id) == lookup(scopes, id),
{
    assert(scopes.push(inner).drop_last() =~= scopes);
}

/// A name bound in no scope has no value; one bound in some scope has the
/// value of its binding in the innermost of them.
pub proof fn law_lookup_finds_innermost(scopes: Seq<Map<Seq<char>, (Val, bool)>>, id: Seq<char>)
    ensures
        lookup(scopes, id) is None <==> forall|i: int| 0 <= i < scopes.len() ==> !(#[trigger] scopes[i]).contains_key(id),
        lookup(scopes, id) is Some ==> exists|i: int|
            0 <= i < scopes.len() && (#[trigger] scopes[i]).contains_key(id) && lookup(scopes, id) == Some(scopes[i][id].0)
                && forall|j: int| i < j < scopes.len() ==> !(#[trigger] scopes[j]).contains_key(id),
    decreases scopes.len(),
{
    if scopes.len() > 0 {
        let rest = scopes.drop_last();
        law_lookup_finds_innermost(rest, id);
        if !scopes.last().contains_key(id) {
            if lookup(rest, id) is Some {
                let i = choose|i: int|
                    0 <= i < rest.len() && (#[trigger] rest[i]).contains_key(id) && lookup(rest, id) == Some(rest[i][id].0)
                        && forall|j: int| i < j < rest.len() ==> !(#[trigger] rest[j]).contains_key(id);
                assert(scopes[i] == rest[i]);
                assert forall|j: int| i < j < scopes.len() implies !(#[trigger] scopes[j]).contains_key(id) by {
                    if j < scopes.len() - 1 {
                        assert(scopes[j] == rest[j]);
                    }
                }
            }
            assert forall|i: int| 0 <= i < scopes.len() && (lookup(scopes, id) is None) implies !(#[trigger] scopes[i]).contains_key(id) by {
                if i < scopes.len() - 1 {
                    assert(scopes[i] == rest[i]);
                }
            }
            if lookup(scopes, id) is Some {
                assert(!(forall|i: int| 0 <= i < scopes.len() ==> !(#[trigger] scopes[i]).contains_key(id))) by {
                    let i = choose|i: int|
                        0 <= i < rest.len() && (#[trigger] rest[i]).contains_key(id) && lookup(rest, id) == Some(rest[i][id].0)
                            && forall|j: int| i < j < rest.len() ==> !(#[trigger] rest[j]).contains_key(id);
                    assert(scopes[i] == rest[i]);
                }
            }
        } else {
            assert(scopes[scopes.len() - 1].contains_key(id));
        }
    }
}

/// Reading a scope gives back what was last written to it under that name,
/// and writing one name leaves every other name as it was: `after` is
/// `before` once `Scope::insert(name, value, mutable)` has run (its
/// `ensures`), and `Scope::get` reads a name through the same view.
pub proof fn law_scope_read_after_write(
    before: Scope,
    after: Scope,
    name: Seq<char>,
    value: Value,
    mutable: bool,
    other: Seq<char>,
)
    requires
        after@ == before@.insert(name, (value.model(), mutable)),
        other != name,
    ensures
        after@.contains_key(name),
        after@[name] == (value.model(), mutable),
        after@.contains_key(other) == before@.contains_key(other),
        before@.contains_key(other) ==> after@[other] == before@[other],
{
}

/// A call of a name that is neither a special form nor `return` evaluates
/// its arguments first, left to right. If one fails, the call gives that
/// failure in the state it left, and the builtin never runs. Otherwise the
/// builtin of the name runs on the values, in the state the arguments left.
pub proof fn law_call_evaluates_arguments_first(tape: Seq<Out>, m: Machine, name: Seq<char>, args: Seq<Tree>)
    requires
        !is_special_form(name),
        name != "return"@,
    ensures
        ({
            let (r, m1) = sem_args(tape, m, args, 0, Seq::empty());
            match r {
                Ok(vals) => sem_call(tape, m, name, args) == sem_builtin(tape, m1, name, vals, args),
                Err(e) => sem_call(tape, m, name, args) == (Err::<Val, Fault>(e), m1),
            }
        }),
{
    lemma_args_advances(tape, m, args, 0, Seq::empty());
    let (r, m1) = sem_args(tape, m, args, 0, Seq::empty());
    lemma_advancing_is_not_rewound(tape, m, m1);
}

/// Arguments are evaluated one after the other: the first that fails stops
/// the rest, with its failure and the state it left; one that succeeds hands
/// the next argument the state it left.
pub proof fn law_arguments_in_order(tape: Seq<Out>, m: Machine, args: Seq<Tree>, i: int, acc: Seq<Val>)
    requires
        0 <= i < args.len(),
    ensures
        ({
            let (r, m1) = sem_value(tape, m, args[i]);
            match r {
                Err(e) => sem_args(tape, m, args, i, acc) == (Err::<Seq<Val>, Fault>(e), m1),
                Ok(v) => sem_args(tape, m, args, i, acc) == sem_args(tape, m1, args, i + 1, acc.push(v)),
            }
        }),
        sem_args(tape, m, args, args.len() as int, acc) == (Ok::<Seq<Val>, Fault>(acc), m),
{
    lemma_value_advances(tape, m, args[i]);
    let (r, m1) = sem_value(tape, m, args[i]);
    lemma_advancing_is_not_rewound(tape, m, m1);
}

/// A body runs its statements in order, each in the state the earlier ones
/// left. A statement that is not a call stops it with `NotACall`; a failing
/// call stops it with its failure, keeping what the earlier statements did;
/// the last statement, or the first `return`, gives the body's value.
pub proof fn law_body_runs_in_order(tape: Seq<Out>, m: Machine, cs: Seq<Tree>, i: int)
    requires
        0 <= i < cs.len(),
    ensures
        match cs[i].kind {
            Kind::Call(s) => {
                let (r, m1) = sem_call(tape, m, s, cs[i].children);
                if i == cs.len() - 1 || s == "return"@ {
                    sem_calls(tape, m, cs, i) == (r, m1)
                } else {
                    match r {
                        Err(e) => sem_calls(tape, m, cs, i) == (Err::<Val, Fault>(e), m1),
                        Ok(_) => sem_calls(tape, m, cs, i) == sem_calls(tape, m1, cs, i + 1),
                    }
                }
            },
            _ => sem_calls(tape, m, cs, i) == (Err::<Val, Fault>(Fault::NotACall), m),
        },
{
    match cs[i].kind {
        Kind::Call(s) => {
            lemma_call_advances(tape, m, s, cs[i].children);
            let (r, m1) = sem_call(tape, m, s, cs[i].children);
            lemma_advancing_is_not_rewound(tape, m, m1);
        },
        _ => {},
    }
}

/// `import` of one existing file runs the file's body in the current scope,
/// with no scope pushed, so what it leaves stays in the caller's scopes; the
/// import gives nil, not the body's value, or the body's failure.
pub proof fn law_import_runs_in_the_current_scope(tape: Seq<Out>, m: Machine, path: Seq<char>, program: Tree, args: Seq<Tree>)
    requires
        m.next + 2 <= tape.len(),
        tape[m.next as int] == Out::Bool(true),
        tape[m.next + 1int] == Out::Program(program),
    ensures
        ({
            let loaded = Machine {
                next: m.next + 2,
                answered: m.answered.push(Req::PathExists(path)).push(Req::Load(path)),
                ..m
            };
            let (r, m3) = sem_calls(tape, loaded, program.children, 0);
            sem_imports(tape, m, seq![Val::Str(path)], 0, args) == match r {
                Ok(_) => (Ok::<Val, Fault>(Val::Nil), m3),
                Err(e) => (Err::<Val, Fault>(e), m3),
            }
        }),
{
    let loaded = Machine {
        next: m.next + 2,
        answered: m.answered.push(Req::PathExists(path)).push(Req::Load(path)),
        ..m
    };
    let vals = seq![Val::Str(path)];
    let m1 = Machine { next: m.next + 1, answered: m.answered.push(Req::PathExists(path)), ..m };
    assert(ask(tape, m, Req::PathExists(path)) == (Ok::<Out, Fault>(Out::Bool(true)), m1));
    assert(ask(tape, m1, Req::Load(path)) == (Ok::<Out, Fault>(Out::Program(program)), loaded));
    lemma_calls_advances(tape, loaded, program.children, 0);
    let (r, m3) = sem_calls(tape, loaded, program.children, 0);
    lemma_advancing_is_not_rewound(tape, m, m3);
    assert(sem_imports(tape, m3, vals, 1, args) == (Ok::<Val, Fault>(Val::Nil), m3));
}

/// A directory walk lists each entry's path, then, for a directory,
/// everything below it, walked in the state the earlier entries left; a
/// failure below stops the walk; a failure of the listing itself ends the
/// walk after the entries read before it.
pub proof fn law_walk_is_depth_first(
    tape: Seq<Out>,
    m: Machine,
    entries: Seq<(Seq<char>, bool)>,
    failure: Option<Seq<char>>,
    i: int,
    acc: Seq<Seq<char>>,
)
    requires
        0 <= i <= entries.len(),
    ensures
        i == entries.len() ==> sem_entries(tape, m, entries, failure, i, acc) == match failure {
            Some(msg) => (Err::<Seq<Seq<char>>, Fault>(Fault::Host(msg)), m),
            None => (Ok::<Seq<Seq<char>>, Fault>(acc), m),
        },
        i < entries.len() && !entries[i].1 ==> sem_entries(tape, m, entries, failure, i, acc) == sem_entries(
            tape,
            m,
            entries,
            failure,
            i + 1,
            acc.push(entries[i].0),
        ),
        i < entries.len() && entries[i].1 ==> ({
            let (r, m1) = sem_see_dir(tape, m, entries[i].0);
            sem_entries(tape, m, entries, failure, i, acc) == match r {
                Ok(below) => sem_entries(tape, m1, entries, failure, i + 1, acc.push(entries[i].0) + below),
                Err(e) => (Err::<Seq<Seq<char>>, Fault>(e), m1),
            }
        }),
{
    if i < entries.len() && entries[i].1 {
        lemma_see_dir_advances(tape, m, entries[i].0);
        let (r, m1) = sem_see_dir(tape, m, entries[i].0);
        lemma_advancing_is_not_rewound(tape, m, m1);
    }
}

} // verus!
