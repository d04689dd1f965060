use vstd::prelude::*;
use crate::value::{Val, kind_name};
use crate::node::{Kind, Tree};
use crate::host::{Req, Out, Fault};

verus! {

broadcast use vstd::seq::group_seq_axioms;

/// The model of an interpreter between two steps: its stack of scopes, the
/// innermost last, the position of the next unread answer on the tape, and
/// the requests answered so far, in the order they were asked.
pub struct Machine {
    pub scopes: Seq<Map<Seq<char>, (Val, bool)>>,
    pub next: nat,
    pub answered: Seq<Req>,
}

/// How many answers of the tape are still unread.
pub open spec fn remaining(tape: Seq<Out>, m: Machine) -> nat {
    if m.next < tape.len() {
        (tape.len() - m.next) as nat
    } else {
        0
    }
}

/// `after` has more unread answers than `before`: the step between them went
/// back on the tape. No step does (`laws::lemma_advancing_is_not_rewound`);
/// the definitions below test for it only so that they recurse on the
/// answers left, and the test never holds.
pub open spec fn rewound(tape: Seq<Out>, before: Machine, after: Machine) -> bool {
    remaining(tape, after) > remaining(tape, before)
}

/// Asking for outside work: the next answer on the tape, or, when the tape is
/// used up, suspension on the request.
pub open spec fn ask(tape: Seq<Out>, m: Machine, r: Req) -> (Result<Out, Fault>, Machine) {
    if m.next < tape.len() {
        (Ok(tape[m.next as int]), Machine { next: m.next + 1, answered: m.answered.push(r), ..m })
    } else {
        (Err(Fault::Suspended(r)), m)
    }
}

/// The value a name has: its binding in the innermost scope that binds it.
pub open spec fn lookup(scopes: Seq<Map<Seq<char>, (Val, bool)>>, id: Seq<char>) -> Option<Val>
    decreases scopes.len(),
{
    if scopes.len() == 0 {
        None
    } else if scopes.last().contains_key(id) {
        Some(scopes.last()[id].0)
    } else {
        lookup(scopes.drop_last(), id)
    }
}

/// The fault for a builtin that got `found` arguments where it takes `min..=max`.
pub open spec fn count_fault(min: nat, max: nat, found: nat) -> Fault {
    Fault::ArgumentCount { min, max, found }
}

/// The fault for a builtin that wanted a string and got `v`.
pub open spec fn string_fault(v: Val) -> Fault {
    Fault::ExpectedString { found_type: kind_name(v) }
}

/// What an answer that should carry a value gives back.
pub open spec fn answer_value(o: Out) -> Result<Val, Fault> {
    match o {
        Out::Value(v) => Ok(v),
        Out::Failed(msg) => Err(Fault::Host(msg)),
        _ => Err(Fault::UnexpectedOutcome),
    }
}

/// What an answer that should report success gives back: `v` on success.
pub open spec fn answer_done(o: Out, v: Val) -> Result<Val, Fault> {
    match o {
        Out::Done => Ok(v),
        Out::Failed(msg) => Err(Fault::Host(msg)),
        _ => Err(Fault::UnexpectedOutcome),
    }
}

/// Names whose special forms this evaluator does not hold.
pub open spec fn is_special_form(name: Seq<char>) -> bool {
    ||| name == "define"@
    ||| name == "var"@
    ||| name == "set"@
    ||| name == "drop"@
    ||| name == "if"@
    ||| name == "match"@
    ||| name == "while"@
    ||| name == "lambda"@
    ||| name == "+"@
    ||| name == "*"@
    ||| name == "/"@
    ||| name == "%"@
    ||| name == "-"@
    ||| name == "="@
    ||| name == "!="@
    ||| name == "<"@
    ||| name == ">"@
    ||| name == "<="@
    ||| name == ">="@
    ||| name == "|"@
    ||| name == "&"@
    ||| name == "!"@
}

/// `assert`: nil when its one argument is `true`; a failed assertion otherwise.
pub open spec fn sem_assert(vals: Seq<Val>) -> Result<Val, Fault> {
    if vals.len() != 1 {
        Err(count_fault(1, 1, vals.len()))
    } else if vals[0] == Val::Bool(true) {
        Ok(Val::Nil)
    } else {
        Err(Fault::AssertionFailed)
    }
}

/// `typeof`: the name of its one argument's type.
pub open spec fn sem_typeof(vals: Seq<Val>) -> Result<Val, Fault> {
    if vals.len() != 1 {
        Err(count_fault(1, 1, vals.len()))
    } else {
        Ok(Val::Str(kind_name(vals[0])))
    }
}

/// `static_cast`: the second argument converted to the type the first names.
pub open spec fn sem_cast(tape: Seq<Out>, m: Machine, vals: Seq<Val>) -> (Result<Val, Fault>, Machine) {
    if vals.len() != 2 {
        (Err(count_fault(2, 2, vals.len())), m)
    } else {
        match vals[0] {
            Val::Str(t) => {
                let (o, m1) = ask(tape, m, Req::Convert { target: t, value: vals[1] });
                match o {
                    Ok(o) => (answer_value(o), m1),
                    Err(e) => (Err(e), m1),
                }
            },
            _ => (Err(string_fault(vals[0])), m),
        }
    }
}

/// `fs:exists?`: whether the path in the first argument exists; false when
/// there is no first argument or it is not a string.
pub open spec fn sem_exists(tape: Seq<Out>, m: Machine, vals: Seq<Val>) -> (Result<Val, Fault>, Machine) {
    if vals.len() < 1 {
        (Ok(Val::Bool(false)), m)
    } else {
        match vals[0] {
            Val::Str(s) => {
                let (o, m1) = ask(tape, m, Req::PathExists(s));
                match o {
                    Ok(Out::Bool(b)) => (Ok(Val::Bool(b)), m1),
                    Ok(_) => (Err(Fault::UnexpectedOutcome), m1),
                    Err(e) => (Err(e), m1),
                }
            },
            _ => (Ok(Val::Bool(false)), m),
        }
    }
}

/// The strings of a list of paths, as values.
pub open spec fn path_values(paths: Seq<Seq<char>>) -> Seq<Val> {
    paths.map_values(|p: Seq<char>| Val::Str(p))
}

/// The shape shared by the file builtins that look before they act: check
/// that the path exists, then ask `then`; `absent` when it does not exist.
pub open spec fn sem_if_exists(
    tape: Seq<Out>,
    m: Machine,
    path: Seq<char>,
    then: Req,
    absent: Val,
) -> (Result<Out, Fault>, Machine, bool) {
    let (o, m1) = ask(tape, m, Req::PathExists(path));
    match o {
        Ok(Out::Bool(true)) => {
            let (o2, m2) = ask(tape, m1, then);
            (o2, m2, true)
        },
        Ok(Out::Bool(false)) => (Ok(Out::Value(absent)), m1, false),
        Ok(_) => (Err(Fault::UnexpectedOutcome), m1, false),
        Err(e) => (Err(e), m1, false),
    }
}

/// Every path below the directory `path`, depth first, each directory just
/// before its contents; the first failure stops the walk.
pub open spec fn sem_see_dir(tape: Seq<Out>, m: Machine, path: Seq<char>) -> (Result<Seq<Seq<char>>, Fault>, Machine)
    decreases remaining(tape, m), 0nat, 0nat,
{
    let (o, m1) = ask(tape, m, Req::ListEntries(path));
    match o {
        Err(e) => (Err(e), m1),
        Ok(Out::Entries { entries, failure }) => sem_entries(tape, m1, entries, failure, 0, Seq::empty()),
        Ok(Out::Failed(msg)) => (Err(Fault::Host(msg)), m1),
        Ok(_) => (Err(Fault::UnexpectedOutcome), m1),
    }
}

/// A directory's entries from the `i`-th on, after the paths `acc`: each
/// entry's path, followed by everything below it when it is a directory;
/// then the failure that stopped the listing, if there was one.
pub open spec fn sem_entries(
    tape: Seq<Out>,
    m: Machine,
    entries: Seq<(Seq<char>, bool)>,
    failure: Option<Seq<char>>,
    i: int,
    acc: Seq<Seq<char>>,
) -> (Result<Seq<Seq<char>>, Fault>, Machine)
    decreases remaining(tape, m), 1nat, entries.len() - i,
{
    if i < 0 || i >= entries.len() {
        match failure {
            Some(msg) => (Err(Fault::Host(msg)), m),
            None => (Ok(acc), m),
        }
    } else if entries[i].1 {
        let (r, m1) = sem_see_dir(tape, m, entries[i].0);
        match r {
            Err(e) => (Err(e), m1),
            Ok(below) => if rewound(tape, m, m1) {
                (Err(Fault::UnexpectedOutcome), m1)
            } else {
                sem_entries(tape, m1, entries, failure, i + 1, acc.push(entries[i].0) + below)
            },
        }
    } else {
        sem_entries(tape, m, entries, failure, i + 1, acc.push(entries[i].0))
    }
}

/// `fs:readDir`: every path below the directory, or an empty list when the
/// path does not exist.
pub open spec fn sem_read_dir(tape: Seq<Out>, m: Machine, vals: Seq<Val>) -> (Result<Val, Fault>, Machine) {
    if vals.len() != 1 {
        (Err(count_fault(1, 1, vals.len())), m)
    } else {
        match vals[0] {
            Val::Str(s) => {
                let (o, m1) = ask(tape, m, Req::PathExists(s));
                match o {
                    Ok(Out::Bool(true)) => {
                        let (r, m2) = sem_see_dir(tape, m1, s);
                        match r {
                            Ok(ps) => (Ok(Val::List(path_values(ps))), m2),
                            Err(e) => (Err(e), m2),
                        }
                    },
                    Ok(Out::Bool(false)) => (Ok(Val::List(Seq::empty())), m1),
                    Ok(_) => (Err(Fault::UnexpectedOutcome), m1),
                    Err(e) => (Err(e), m1),
                }
            },
            _ => (Err(string_fault(vals[0])), m),
        }
    }
}

/// `fs:readFile`: the text of the file, or the empty string when the path
/// does not exist.
pub open spec fn sem_read_file(tape: Seq<Out>, m: Machine, vals: Seq<Val>) -> (Result<Val, Fault>, Machine) {
    if vals.len() != 1 {
        (Err(count_fault(1, 1, vals.len())), m)
    } else {
        match vals[0] {
            Val::Str(s) => {
                let (o, m1, asked) = sem_if_exists(tape, m, s, Req::ReadFile(s), Val::Str(Seq::empty()));
                match o {
                    Err(e) => (Err(e), m1),
                    Ok(o) => if !asked {
                        (answer_value(o), m1)
                    } else {
                        match o {
                            Out::Text(t) => (Ok(Val::Str(t)), m1),
                            Out::Failed(msg) => (Err(Fault::Host(msg)), m1),
                            _ => (Err(Fault::UnexpectedOutcome), m1),
                        }
                    },
                }
            },
            _ => (Err(string_fault(vals[0])), m),
        }
    }
}

/// `fs:createFile` and `fs:removeFile`: nil once the embedding program has
/// done the work on the path in the one argument.
pub open spec fn sem_file_op(
    tape: Seq<Out>,
    m: Machine,
    vals: Seq<Val>,
    remove: bool,
) -> (Result<Val, Fault>, Machine) {
    if vals.len() != 1 {
        (Err(count_fault(1, 1, vals.len())), m)
    } else {
        match vals[0] {
            Val::Str(s) => {
                let r = if remove { Req::RemoveFile(s) } else { Req::CreateFile(s) };
                let (o, m1) = ask(tape, m, r);
                match o {
                    Ok(o) => (answer_done(o, Val::Nil), m1),
                    Err(e) => (Err(e), m1),
                }
            },
            _ => (Err(string_fault(vals[0])), m),
        }
    }
}

/// `fs:writeFile path mode content`: false when the path does not exist;
/// otherwise the content is written, appended when the mode is `"a"`, and the
/// result is true. A mode that is not a string is reported by the type of
/// the path argument.
pub open spec fn sem_write_file(tape: Seq<Out>, m: Machine, vals: Seq<Val>) -> (Result<Val, Fault>, Machine) {
    if vals.len() != 3 {
        (Err(count_fault(3, 3, vals.len())), m)
    } else {
        match vals[0] {
            Val::Str(s) => {
                let (o, m1) = ask(tape, m, Req::PathExists(s));
                match o {
                    Ok(Out::Bool(true)) => match vals[1] {
                        Val::Str(mode) => {
                            let (o2, m2) = ask(
                                tape,
                                m1,
                                Req::WriteFile { path: s, append: mode == "a"@, content: vals[2] },
                            );
                            match o2 {
                                Ok(o2) => (answer_done(o2, Val::Bool(true)), m2),
                                Err(e) => (Err(e), m2),
                            }
                        },
                        _ => (Err(string_fault(vals[0])), m1),
                    },
                    Ok(Out::Bool(false)) => (Ok(Val::Bool(false)), m1),
                    Ok(_) => (Err(Fault::UnexpectedOutcome), m1),
                    Err(e) => (Err(e), m1),
                }
            },
            _ => (Err(string_fault(vals[0])), m),
        }
    }
}

/// `sys:breakpoint [name]`: pause under the name given, or under
/// `UNNAMED_BREAKPOINT` when there is none, and give nil once resumed.
pub open spec fn sem_breakpoint(tape: Seq<Out>, m: Machine, vals: Seq<Val>) -> (Result<Val, Fault>, Machine) {
    if vals.len() == 1 {
        match vals[0] {
            Val::Str(s) => {
                let (o, m1) = ask(tape, m, Req::Pause(s));
                match o {
                    Ok(o) => (answer_done(o, Val::Nil), m1),
                    Err(e) => (Err(e), m1),
                }
            },
            _ => (Err(string_fault(vals[0])), m),
        }
    } else if vals.len() == 0 {
        let (o, m1) = ask(tape, m, Req::Pause("UNNAMED_BREAKPOINT"@));
        match o {
            Ok(o) => (answer_done(o, Val::Nil), m1),
            Err(e) => (Err(e), m1),
        }
    } else {
        (Err(count_fault(0, 1, vals.len())), m)
    }
}

/// A call of a library function that this evaluator does not hold: the
/// embedding program runs it on the evaluated arguments.
pub open spec fn sem_host_call(tape: Seq<Out>, m: Machine, name: Seq<char>, vals: Seq<Val>) -> (Result<Val, Fault>, Machine) {
    let (o, m1) = ask(tape, m, Req::Call { name, args: vals });
    match o {
        Ok(o) => (answer_value(o), m1),
        Err(e) => (Err(e), m1),
    }
}

/// A literal, a name, a scope or a call, evaluated.
pub open spec fn sem_value(tape: Seq<Out>, m: Machine, t: Tree) -> (Result<Val, Fault>, Machine)
    decreases remaining(tape, m), t, 5nat, 0nat,
{
    match t.kind {
        Kind::Bool(b) => (Ok(Val::Bool(b)), m),
        Kind::Scope => sem_scope(tape, m, t),
        Kind::Int(i) => (Ok(Val::Int(i)), m),
        Kind::Float(f) => (Ok(Val::Float(f)), m),
        Kind::Nil => (Ok(Val::Nil), m),
        Kind::Str(s) => (Ok(Val::Str(s)), m),
        Kind::Call(f) => sem_call(tape, m, f, t.children),
        Kind::Ident(id) => match lookup(m.scopes, id) {
            Some(v) => (Ok(v), m),
            None => (Err(Fault::Unbound(id)), m),
        },
    }
}

/// A scope: its body runs in a fresh innermost scope, which is dropped again
/// when the body succeeds.
pub open spec fn sem_scope(tape: Seq<Out>, m: Machine, t: Tree) -> (Result<Val, Fault>, Machine)
    decreases remaining(tape, m), t, 4nat, 0nat,
{
    let inner = Machine { scopes: m.scopes.push(Map::empty()), ..m };
    let (r, m1) = sem_calls(tape, inner, t.children, 0);
    match r {
        Ok(v) => (Ok(v), Machine { scopes: m1.scopes.drop_last(), ..m1 }),
        Err(e) => (Err(e), m1),
    }
}

/// A body, from its `i`-th statement on: every statement must be a call; the
/// last one, or the first `return`, gives the body's value.
pub open spec fn sem_calls(tape: Seq<Out>, m: Machine, cs: Seq<Tree>, i: int) -> (Result<Val, Fault>, Machine)
    decreases remaining(tape, m), cs, 3nat, cs.len() - i,
{
    if i < 0 || i >= cs.len() {
        (Ok(Val::Nil), m)
    } else {
        match cs[i].kind {
            Kind::Call(s) => if i == cs.len() - 1 || s == "return"@ {
                sem_call(tape, m, s, cs[i].children)
            } else {
                let (r, m1) = sem_call(tape, m, s, cs[i].children);
                match r {
                    Err(e) => (Err(e), m1),
                    Ok(_) => if rewound(tape, m, m1) {
                        (Err(Fault::UnexpectedOutcome), m1)
                    } else {
                        sem_calls(tape, m1, cs, i + 1)
                    },
                }
            },
            _ => (Err(Fault::NotACall), m),
        }
    }
}

/// A call: special forms this evaluator does not hold are refused; `return`
/// gives its first argument; anything else has its arguments evaluated in
/// order and goes to the builtin of its name.
pub open spec fn sem_call(tape: Seq<Out>, m: Machine, name: Seq<char>, args: Seq<Tree>) -> (Result<Val, Fault>, Machine)
    decreases remaining(tape, m), args, 3nat, 0nat,
{
    if is_special_form(name) {
        (Err(Fault::Unsupported(name)), m)
    } else if name == "return"@ {
        if args.len() < 1 {
            (Ok(Val::Nil), m)
        } else {
            sem_value(tape, m, args[0])
        }
    } else {
        let (r, m1) = sem_args(tape, m, args, 0, Seq::empty());
        match r {
            Err(e) => (Err(e), m1),
            Ok(vals) => if rewound(tape, m, m1) {
                (Err(Fault::UnexpectedOutcome), m1)
            } else {
                sem_builtin(tape, m1, name, vals, args)
            },
        }
    }
}

/// The arguments from the `i`-th on, evaluated in order after `acc`.
pub open spec fn sem_args(tape: Seq<Out>, m: Machine, args: Seq<Tree>, i: int, acc: Seq<Val>) -> (Result<Seq<Val>, Fault>, Machine)
    decreases remaining(tape, m), args, 2nat, args.len() - i,
{
    if i < 0 || i >= args.len() {
        (Ok(acc), m)
    } else {
        let (r, m1) = sem_value(tape, m, args[i]);
        match r {
            Err(e) => (Err(e), m1),
            Ok(v) => if rewound(tape, m, m1) {
                (Err(Fault::UnexpectedOutcome), m1)
            } else {
                sem_args(tape, m1, args, i + 1, acc.push(v))
            },
        }
    }
}

/// The builtin named `name` on evaluated arguments; `args` is the call's
/// syntax, which only bounds the recursion.
pub open spec fn sem_builtin(tape: Seq<Out>, m: Machine, name: Seq<char>, vals: Seq<Val>, args: Seq<Tree>) -> (Result<Val, Fault>, Machine)
    decreases remaining(tape, m), args, 1nat, 0nat,
{
    if name == "assert"@ {
        (sem_assert(vals), m)
    } else if name == "typeof"@ {
        (sem_typeof(vals), m)
    } else if name == "import"@ {
        sem_imports(tape, m, vals, 0, args)
    } else if name == "static_cast"@ {
        sem_cast(tape, m, vals)
    } else if name == "fs:exists?"@ {
        sem_exists(tape, m, vals)
    } else if name == "fs:readDir"@ {
        sem_read_dir(tape, m, vals)
    } else if name == "fs:readFile"@ {
        sem_read_file(tape, m, vals)
    } else if name == "fs:writeFile"@ {
        sem_write_file(tape, m, vals)
    } else if name == "fs:createFile"@ {
        sem_file_op(tape, m, vals, false)
    } else if name == "fs:removeFile"@ {
        sem_file_op(tape, m, vals, true)
    } else if name == "sys:breakpoint"@ {
        sem_breakpoint(tape, m, vals)
    } else {
        sem_host_call(tape, m, name, vals)
    }
}

/// `import`, from the `j`-th argument on: each must name an existing file,
/// whose program then runs in the current scope.
pub open spec fn sem_imports(tape: Seq<Out>, m: Machine, vals: Seq<Val>, j: int, args: Seq<Tree>) -> (Result<Val, Fault>, Machine)
    decreases remaining(tape, m), args, 0nat, vals.len() - j,
{
    if j < 0 || j >= vals.len() {
        (Ok(Val::Nil), m)
    } else {
        match vals[j] {
            Val::Str(s) => {
                let (o1, m1) = ask(tape, m, Req::PathExists(s));
                match o1 {
                    Err(e) => (Err(e), m1),
                    Ok(Out::Bool(false)) => (Err(Fault::MissingFile(s)), m1),
                    Ok(Out::Bool(true)) => {
                        let (o2, m2) = ask(tape, m1, Req::Load(s));
                        match o2 {
                            Err(e) => (Err(e), m2),
                            Ok(Out::Program(p)) => {
                                let (r, m3) = sem_calls(tape, m2, p.children, 0);
                                match r {
                                    Err(e) => (Err(e), m3),
                                    Ok(_) => if rewound(tape, m, m3) {
                                        (Err(Fault::UnexpectedOutcome), m3)
                                    } else {
                                        sem_imports(tape, m3, vals, j + 1, args)
                                    },
                                }
                            },
                            Ok(Out::Failed(msg)) => (Err(Fault::Host(msg)), m2),
                            Ok(_) => (Err(Fault::UnexpectedOutcome), m2),
                        }
                    },
                    Ok(_) => (Err(Fault::UnexpectedOutcome), m1),
                }
            },
            _ => (Err(string_fault(vals[j])), m),
        }
    }
}

} // verus!
