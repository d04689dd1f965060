use vstd::prelude::*;
use crate::value::Val;
use crate::node::{Kind, Tree};
use crate::host::{Req, Out, Fault};
use crate::semantics::{Machine, ask, sem_value, sem_builtin, sem_imports, sem_calls, sem_read_file, sem_file_op, sem_write_file, sem_exists, sem_cast, sem_breakpoint, sem_host_call, sem_read_dir, sem_see_dir, sem_entries, sem_call, is_special_form, path_values};
use crate::laws::law_lookup_finds_innermost;

verus! {

/// The machine once the next answer has been read for `r`.
pub open spec fn after_reading(m: Machine, r: Req) -> Machine {
    Machine { next: m.next + 1, answered: m.answered.push(r), ..m }
}

/// The tape holds `o` as the next answer.
pub open spec fn answers_next(tape: Seq<Out>, m: Machine, o: Out) -> bool {
    m.next < tape.len() && tape[m.next as int] == o
}

/// The names of the builtins are all different.
proof fn lemma_builtin_names_differ()
    ensures
        "typeof"@ != "assert"@,
        "import"@ != "assert"@,
        "import"@ != "typeof"@,
        "static_cast"@ != "assert"@,
        "static_cast"@ != "typeof"@,
        "static_cast"@ != "import"@,
        "fs:exists?"@ != "assert"@,
        "fs:exists?"@ != "typeof"@,
        "fs:exists?"@ != "import"@,
        "fs:exists?"@ != "static_cast"@,
        "fs:readDir"@ != "assert"@,
        "fs:readDir"@ != "typeof"@,
        "fs:readDir"@ != "import"@,
        "fs:readDir"@ != "static_cast"@,
        "fs:readDir"@ != "fs:exists?"@,
        "fs:readFile"@ != "assert"@,
        "fs:readFile"@ != "typeof"@,
        "fs:readFile"@ != "import"@,
        "fs:readFile"@ != "static_cast"@,
        "fs:readFile"@ != "fs:exists?"@,
        "fs:readFile"@ != "fs:readDir"@,
        "fs:writeFile"@ != "assert"@,
        "fs:writeFile"@ != "typeof"@,
        "fs:writeFile"@ != "import"@,
        "fs:writeFile"@ != "static_cast"@,
        "fs:writeFile"@ != "fs:exists?"@,
        "fs:writeFile"@ != "fs:readDir"@,
        "fs:writeFile"@ != "fs:readFile"@,
        "fs:createFile"@ != "assert"@,
        "fs:createFile"@ != "typeof"@,
        "fs:createFile"@ != "import"@,
        "fs:createFile"@ != "static_cast"@,
        "fs:createFile"@ != "fs:exists?"@,
        "fs:createFile"@ != "fs:readDir"@,
        "fs:createFile"@ != "fs:readFile"@,
        "fs:createFile"@ != "fs:writeFile"@,
        "fs:removeFile"@ != "assert"@,
        "fs:removeFile"@ != "typeof"@,
        "fs:removeFile"@ != "import"@,
        "fs:removeFile"@ != "static_cast"@,
        "fs:removeFile"@ != "fs:exists?"@,
        "fs:removeFile"@ != "fs:readDir"@,
        "fs:removeFile"@ != "fs:readFile"@,
        "fs:removeFile"@ != "fs:writeFile"@,
        "fs:removeFile"@ != "fs:createFile"@,
        "sys:breakpoint"@ != "assert"@,
        "sys:breakpoint"@ != "typeof"@,
        "sys:breakpoint"@ != "import"@,
        "sys:breakpoint"@ != "static_cast"@,
        "sys:breakpoint"@ != "fs:exists?"@,
        "sys:breakpoint"@ != "fs:readDir"@,
        "sys:breakpoint"@ != "fs:readFile"@,
        "sys:breakpoint"@ != "fs:writeFile"@,
        "sys:breakpoint"@ != "fs:createFile"@,
        "sys:breakpoint"@ != "fs:removeFile"@,
{
    broadcast use vstd::string::group_string_axioms;
    reveal_strlit("assert");
    reveal_strlit("typeof");
    reveal_strlit("import");
    reveal_strlit("static_cast");
    reveal_strlit("fs:exists?");
    reveal_strlit("fs:readDir");
    reveal_strlit("fs:readFile");
    reveal_strlit("fs:writeFile");
    reveal_strlit("fs:createFile");
    reveal_strlit("fs:removeFile");
    reveal_strlit("sys:breakpoint");
    assert("assert"@.len() == 6);
    assert("typeof"@.len() == 6);
    assert("import"@.len() == 6);
    assert("static_cast"@.len() == 11);
    assert("fs:exists?"@.len() == 10);
    assert("fs:readDir"@.len() == 10);
    assert("fs:readFile"@.len() == 11);
    assert("fs:writeFile"@.len() == 12);
    assert("fs:createFile"@.len() == 13);
    assert("fs:removeFile"@.len() == 13);
    assert("sys:breakpoint"@.len() == 14);
    assert("typeof"@[0] != "assert"@[0]);
    assert("import"@[0] != "assert"@[0]);
    assert("import"@[0] != "typeof"@[0]);
    assert("fs:readDir"@[3] != "fs:exists?"@[3]);
    assert("fs:readFile"@[0] != "static_cast"@[0]);
    assert("fs:removeFile"@[3] != "fs:createFile"@[3]);
}

/// A name evaluates to its binding in the innermost scope that binds it:
/// bindings in outer scopes are hidden, and evaluating reads no answer.
pub proof fn law_name_gives_innermost_binding(tape: Seq<Out>, m: Machine, id: Seq<char>, children: Seq<Tree>, i: int)
    requires
        0 <= i < m.scopes.len(),
        m.scopes[i].contains_key(id),
        forall|j: int| i < j < m.scopes.len() ==> !(#[trigger] m.scopes[j]).contains_key(id),
    ensures
        sem_value(tape, m, Tree { kind: Kind::Ident(id), children }) == (Ok::<Val, Fault>(m.scopes[i][id].0), m),
{
    law_lookup_finds_innermost(m.scopes, id);
    assert(!(forall|k: int| 0 <= k < m.scopes.len() ==> !(#[trigger] m.scopes[k]).contains_key(id)));
    let k = choose|k: int|
        0 <= k < m.scopes.len() && (#[trigger] m.scopes[k]).contains_key(id) && crate::semantics::lookup(m.scopes, id)
            == Some(m.scopes[k][id].0) && forall|j: int| k < j < m.scopes.len() ==> !(#[trigger] m.scopes[j]).contains_key(id);
    if k < i {
        assert(!m.scopes[i].contains_key(id));
    }
    if i < k {
        assert(!m.scopes[k].contains_key(id));
    }
}

/// A name that no scope binds is an error naming it.
pub proof fn law_unbound_name(tape: Seq<Out>, m: Machine, id: Seq<char>, children: Seq<Tree>)
    requires
        forall|i: int| 0 <= i < m.scopes.len() ==> !(#[trigger] m.scopes[i]).contains_key(id),
    ensures
        sem_value(tape, m, Tree { kind: Kind::Ident(id), children }) == (Err::<Val, Fault>(Fault::Unbound(id)), m),
{
    law_lookup_finds_innermost(m.scopes, id);
}

/// `fs:readFile` of an existing file gives the file's whole text as read,
/// whatever it holds, after asking whether the path exists and then for the
/// text; of a missing path, the empty string after asking only whether it
/// exists.
pub proof fn law_read_file_gives_the_whole_text(tape: Seq<Out>, m: Machine, path: Seq<char>, text: Seq<char>, args: Seq<Tree>)
    ensures
        answers_next(tape, m, Out::Bool(true)) && answers_next(tape, after_reading(m, Req::PathExists(path)), Out::Text(text))
            ==> sem_builtin(tape, m, "fs:readFile"@, seq![Val::Str(path)], args) == (
            Ok::<Val, Fault>(Val::Str(text)),
            after_reading(after_reading(m, Req::PathExists(path)), Req::ReadFile(path)),
        ),
        answers_next(tape, m, Out::Bool(false)) ==> sem_builtin(tape, m, "fs:readFile"@, seq![Val::Str(path)], args) == (
            Ok::<Val, Fault>(Val::Str(Seq::empty())),
            after_reading(m, Req::PathExists(path)),
        ),
{
    lemma_builtin_names_differ();
    let vals = seq![Val::Str(path)];
    assert(vals.len() == 1 && vals[0] == Val::Str(path));
    assert(sem_builtin(tape, m, "fs:readFile"@, vals, args) == sem_read_file(tape, m, vals));
    let m1 = after_reading(m, Req::PathExists(path));
    if answers_next(tape, m, Out::Bool(true)) {
        assert(ask(tape, m, Req::PathExists(path)) == (Ok::<Out, Fault>(Out::Bool(true)), m1));
        if answers_next(tape, m1, Out::Text(text)) {
            assert(ask(tape, m1, Req::ReadFile(path)) == (Ok::<Out, Fault>(Out::Text(text)), after_reading(m1, Req::ReadFile(path))));
        }
    }
    if answers_next(tape, m, Out::Bool(false)) {
        assert(ask(tape, m, Req::PathExists(path)) == (Ok::<Out, Fault>(Out::Bool(false)), m1));
    }
}

/// `import` goes through all its arguments in order: once the program of
/// one existing file has run without failing, it goes on with the next
/// argument in the state that program left; a failing program stops it with
/// that failure; a missing file stops it with an error naming the file; with
/// no argument left it gives nil.
pub proof fn law_import_goes_through_every_file(
    tape: Seq<Out>,
    m: Machine,
    vals: Seq<Val>,
    j: int,
    args: Seq<Tree>,
    path: Seq<char>,
    program: Tree,
)
    requires
        0 <= j <= vals.len(),
    ensures
        j == vals.len() ==> sem_imports(tape, m, vals, j, args) == (Ok::<Val, Fault>(Val::Nil), m),
        j < vals.len() && vals[j] == Val::Str(path) && answers_next(tape, m, Out::Bool(false)) ==> sem_imports(tape, m, vals, j, args)
            == (Err::<Val, Fault>(Fault::MissingFile(path)), after_reading(m, Req::PathExists(path))),
        ({
            let loaded = after_reading(after_reading(m, Req::PathExists(path)), Req::Load(path));
            let (r, m3) = sem_calls(tape, loaded, program.children, 0);
            j < vals.len() && vals[j] == Val::Str(path) && answers_next(tape, m, Out::Bool(true))
                && answers_next(tape, after_reading(m, Req::PathExists(path)), Out::Program(program))
                ==> sem_imports(tape, m, vals, j, args) == match r {
                    Ok(_) => sem_imports(tape, m3, vals, j + 1, args),
                    Err(e) => (Err::<Val, Fault>(e), m3),
                }
        }),
{
    let loaded = after_reading(after_reading(m, Req::PathExists(path)), Req::Load(path));
    crate::laws::lemma_calls_advances(tape, loaded, program.children, 0);
    let (r, m3) = sem_calls(tape, loaded, program.children, 0);
    crate::laws::lemma_advancing_is_not_rewound(tape, m, m3);
}

/// `fs:createFile` asks to create exactly the path it is given, and
/// `fs:removeFile` to remove it; each gives nil once that is done, reports
/// a failure of it, and waits for the answer when the tape has none.
pub proof fn law_create_and_remove_ask_for_their_own_work(tape: Seq<Out>, m: Machine, path: Seq<char>, msg: Seq<char>, args: Seq<Tree>)
    ensures
        answers_next(tape, m, Out::Done) ==> sem_builtin(tape, m, "fs:createFile"@, seq![Val::Str(path)], args)
            == (Ok::<Val, Fault>(Val::Nil), after_reading(m, Req::CreateFile(path))),
        answers_next(tape, m, Out::Done) ==> sem_builtin(tape, m, "fs:removeFile"@, seq![Val::Str(path)], args)
            == (Ok::<Val, Fault>(Val::Nil), after_reading(m, Req::RemoveFile(path))),
        answers_next(tape, m, Out::Failed(msg)) ==> sem_builtin(tape, m, "fs:createFile"@, seq![Val::Str(path)], args)
            == (Err::<Val, Fault>(Fault::Host(msg)), after_reading(m, Req::CreateFile(path))),
        answers_next(tape, m, Out::Failed(msg)) ==> sem_builtin(tape, m, "fs:removeFile"@, seq![Val::Str(path)], args)
            == (Err::<Val, Fault>(Fault::Host(msg)), after_reading(m, Req::RemoveFile(path))),
        m.next >= tape.len() ==> sem_builtin(tape, m, "fs:createFile"@, seq![Val::Str(path)], args)
            == (Err::<Val, Fault>(Fault::Suspended(Req::CreateFile(path))), m),
        m.next >= tape.len() ==> sem_builtin(tape, m, "fs:removeFile"@, seq![Val::Str(path)], args)
            == (Err::<Val, Fault>(Fault::Suspended(Req::RemoveFile(path))), m),
{
    lemma_builtin_names_differ();
    let vals = seq![Val::Str(path)];
    assert(vals.len() == 1 && vals[0] == Val::Str(path));
    assert(sem_builtin(tape, m, "fs:createFile"@, vals, args) == sem_file_op(tape, m, vals, false));
    assert(sem_builtin(tape, m, "fs:removeFile"@, vals, args) == sem_file_op(tape, m, vals, true));
    if m.next < tape.len() {
        assert(ask(tape, m, Req::CreateFile(path)) == (Ok::<Out, Fault>(tape[m.next as int]), after_reading(m, Req::CreateFile(path))));
        assert(ask(tape, m, Req::RemoveFile(path)) == (Ok::<Out, Fault>(tape[m.next as int]), after_reading(m, Req::RemoveFile(path))));
    }
}

/// `fs:writeFile` on an existing path asks to write the content there,
/// appending exactly when the mode is `"a"`, and gives true once written,
/// whatever the mode; it gives false only when the path does not exist,
/// and then writes nothing.
pub proof fn law_write_file_is_true_once_written(
    tape: Seq<Out>,
    m: Machine,
    path: Seq<char>,
    mode: Seq<char>,
    content: Val,
    args: Seq<Tree>,
)
    ensures
        ({
            let asked = after_reading(m, Req::PathExists(path));
            let w = Req::WriteFile { path, append: mode == "a"@, content };
            answers_next(tape, m, Out::Bool(true)) && answers_next(tape, asked, Out::Done)
                ==> sem_builtin(tape, m, "fs:writeFile"@, seq![Val::Str(path), Val::Str(mode), content], args)
                == (Ok::<Val, Fault>(Val::Bool(true)), after_reading(asked, w))
        }),
        answers_next(tape, m, Out::Bool(false)) ==> sem_builtin(tape, m, "fs:writeFile"@, seq![Val::Str(path), Val::Str(mode), content], args)
            == (Ok::<Val, Fault>(Val::Bool(false)), after_reading(m, Req::PathExists(path))),
{
    lemma_builtin_names_differ();
    let vals = seq![Val::Str(path), Val::Str(mode), content];
    assert(vals.len() == 3 && vals[0] == Val::Str(path) && vals[1] == Val::Str(mode) && vals[2] == content);
    assert(sem_builtin(tape, m, "fs:writeFile"@, vals, args) == sem_write_file(tape, m, vals));
    let m1 = after_reading(m, Req::PathExists(path));
    let w = Req::WriteFile { path, append: mode == "a"@, content };
    if answers_next(tape, m, Out::Bool(true)) {
        assert(ask(tape, m, Req::PathExists(path)) == (Ok::<Out, Fault>(Out::Bool(true)), m1));
        if answers_next(tape, m1, Out::Done) {
            assert(ask(tape, m1, w) == (Ok::<Out, Fault>(Out::Done), after_reading(m1, w)));
        }
    }
    if answers_next(tape, m, Out::Bool(false)) {
        assert(ask(tape, m, Req::PathExists(path)) == (Ok::<Out, Fault>(Out::Bool(false)), m1));
    }
}

/// `typeof` names the type of its one argument.
pub proof fn law_typeof_names_the_type(tape: Seq<Out>, m: Machine, i: i32, f: u32, b: bool, text: Seq<char>, items: Seq<Val>, args: Seq<Tree>)
    ensures
        sem_builtin(tape, m, "typeof"@, seq![Val::Nil], args) == (Ok::<Val, Fault>(Val::Str("nil"@)), m),
        sem_builtin(tape, m, "typeof"@, seq![Val::Bool(b)], args) == (Ok::<Val, Fault>(Val::Str("bool"@)), m),
        sem_builtin(tape, m, "typeof"@, seq![Val::Int(i)], args) == (Ok::<Val, Fault>(Val::Str("int"@)), m),
        sem_builtin(tape, m, "typeof"@, seq![Val::Float(f)], args) == (Ok::<Val, Fault>(Val::Str("float"@)), m),
        sem_builtin(tape, m, "typeof"@, seq![Val::Str(text)], args) == (Ok::<Val, Fault>(Val::Str("string"@)), m),
        sem_builtin(tape, m, "typeof"@, seq![Val::List(items)], args) == (Ok::<Val, Fault>(Val::Str("list"@)), m),
{
    lemma_builtin_names_differ();
}

/// `assert` gives nil for `true` and a failed assertion for any other one
/// argument, reading no answer; it takes exactly one argument.
pub proof fn law_assert_accepts_only_true(tape: Seq<Out>, m: Machine, v: Val, vals: Seq<Val>, args: Seq<Tree>)
    ensures
        sem_builtin(tape, m, "assert"@, seq![Val::Bool(true)], args) == (Ok::<Val, Fault>(Val::Nil), m),
        v != Val::Bool(true) ==> sem_builtin(tape, m, "assert"@, seq![v], args) == (Err::<Val, Fault>(Fault::AssertionFailed), m),
        vals.len() != 1 ==> sem_builtin(tape, m, "assert"@, vals, args) == (
            Err::<Val, Fault>(Fault::ArgumentCount { min: 1, max: 1, found: vals.len() }),
            m,
        ),
{
}

/// `fs:exists?` gives the answer to whether its path exists; without a
/// string argument it is false and asks nothing.
pub proof fn law_exists_gives_the_answer(tape: Seq<Out>, m: Machine, path: Seq<char>, found: bool, v: Val, args: Seq<Tree>)
    ensures
        answers_next(tape, m, Out::Bool(found)) ==> sem_builtin(tape, m, "fs:exists?"@, seq![Val::Str(path)], args)
            == (Ok::<Val, Fault>(Val::Bool(found)), after_reading(m, Req::PathExists(path))),
        sem_builtin(tape, m, "fs:exists?"@, Seq::empty(), args) == (Ok::<Val, Fault>(Val::Bool(false)), m),
        !(v is Str) ==> sem_builtin(tape, m, "fs:exists?"@, seq![v], args) == (Ok::<Val, Fault>(Val::Bool(false)), m),
{
    lemma_builtin_names_differ();
    let vals = seq![Val::Str(path)];
    assert(vals.len() == 1 && vals[0] == Val::Str(path));
    assert(sem_builtin(tape, m, "fs:exists?"@, vals, args) == sem_exists(tape, m, vals));
    assert(seq![v].len() == 1 && seq![v][0] == v);
    if answers_next(tape, m, Out::Bool(found)) {
        assert(ask(tape, m, Req::PathExists(path)) == (Ok::<Out, Fault>(Out::Bool(found)), after_reading(m, Req::PathExists(path))));
    }
}

/// `static_cast` asks to convert its second argument to the type its first
/// names, and gives the converted value.
pub proof fn law_cast_gives_the_conversion(tape: Seq<Out>, m: Machine, target: Seq<char>, v: Val, w: Val, args: Seq<Tree>)
    ensures
        answers_next(tape, m, Out::Value(w)) ==> sem_builtin(tape, m, "static_cast"@, seq![Val::Str(target), v], args)
            == (Ok::<Val, Fault>(w), after_reading(m, Req::Convert { target, value: v })),
        m.next >= tape.len() ==> sem_builtin(tape, m, "static_cast"@, seq![Val::Str(target), v], args)
            == (Err::<Val, Fault>(Fault::Suspended(Req::Convert { target, value: v })), m),
{
    lemma_builtin_names_differ();
    let vals = seq![Val::Str(target), v];
    assert(vals.len() == 2 && vals[0] == Val::Str(target) && vals[1] == v);
    assert(sem_builtin(tape, m, "static_cast"@, vals, args) == sem_cast(tape, m, vals));
    let r = Req::Convert { target, value: v };
    if m.next < tape.len() {
        assert(ask(tape, m, r) == (Ok::<Out, Fault>(tape[m.next as int]), after_reading(m, r)));
    }
}

/// `sys:breakpoint` pauses under the name it is given, or under
/// `UNNAMED_BREAKPOINT` without one, and gives nil once resumed.
pub proof fn law_breakpoint_pauses_under_its_name(tape: Seq<Out>, m: Machine, name: Seq<char>, args: Seq<Tree>)
    ensures
        answers_next(tape, m, Out::Done) ==> sem_builtin(tape, m, "sys:breakpoint"@, seq![Val::Str(name)], args)
            == (Ok::<Val, Fault>(Val::Nil), after_reading(m, Req::Pause(name))),
        answers_next(tape, m, Out::Done) ==> sem_builtin(tape, m, "sys:breakpoint"@, Seq::empty(), args)
            == (Ok::<Val, Fault>(Val::Nil), after_reading(m, Req::Pause("UNNAMED_BREAKPOINT"@))),
{
    lemma_builtin_names_differ();
    let vals = seq![Val::Str(name)];
    assert(vals.len() == 1 && vals[0] == Val::Str(name));
    assert(sem_builtin(tape, m, "sys:breakpoint"@, vals, args) == sem_breakpoint(tape, m, vals));
    assert(sem_builtin(tape, m, "sys:breakpoint"@, Seq::empty(), args) == sem_breakpoint(tape, m, Seq::empty()));
    if answers_next(tape, m, Out::Done) {
        assert(ask(tape, m, Req::Pause(name)) == (Ok::<Out, Fault>(Out::Done), after_reading(m, Req::Pause(name))));
        assert(ask(tape, m, Req::Pause("UNNAMED_BREAKPOINT"@)) == (Ok::<Out, Fault>(Out::Done), after_reading(m, Req::Pause("UNNAMED_BREAKPOINT"@))));
    }
}

/// A name that is no builtin of the evaluator is a library function: the
/// call asks the embedding program to run it on exactly the values given,
/// and gives what it answers.
pub proof fn law_other_names_are_library_calls(tape: Seq<Out>, m: Machine, name: Seq<char>, vals: Seq<Val>, w: Val, args: Seq<Tree>)
    requires
        name != "assert"@,
        name != "typeof"@,
        name != "import"@,
        name != "static_cast"@,
        name != "fs:exists?"@,
        name != "fs:readDir"@,
        name != "fs:readFile"@,
        name != "fs:writeFile"@,
        name != "fs:createFile"@,
        name != "fs:removeFile"@,
        name != "sys:breakpoint"@,
    ensures
        answers_next(tape, m, Out::Value(w)) ==> sem_builtin(tape, m, name, vals, args)
            == (Ok::<Val, Fault>(w), after_reading(m, Req::Call { name, args: vals })),
        m.next >= tape.len() ==> sem_builtin(tape, m, name, vals, args)
            == (Err::<Val, Fault>(Fault::Suspended(Req::Call { name, args: vals })), m),
{
    let r = Req::Call { name, args: vals };
    if m.next < tape.len() {
        assert(ask(tape, m, r) == (Ok::<Out, Fault>(tape[m.next as int]), after_reading(m, r)));
    }
}

/// `fs:readDir` of a missing path is the empty list; of a directory holding
/// only files, the files' paths in the order listed.
pub proof fn law_read_dir_lists_the_paths(tape: Seq<Out>, m: Machine, path: Seq<char>, files: Seq<Seq<char>>, args: Seq<Tree>)
    ensures
        answers_next(tape, m, Out::Bool(false)) ==> sem_builtin(tape, m, "fs:readDir"@, seq![Val::Str(path)], args)
            == (Ok::<Val, Fault>(Val::List(Seq::empty())), after_reading(m, Req::PathExists(path))),
        ({
            let m1 = after_reading(m, Req::PathExists(path));
            let listed = Out::Entries { entries: files.map_values(|f: Seq<char>| (f, false)), failure: None };
            answers_next(tape, m, Out::Bool(true)) && answers_next(tape, m1, listed)
                ==> sem_builtin(tape, m, "fs:readDir"@, seq![Val::Str(path)], args) == (
                Ok::<Val, Fault>(Val::List(files.map_values(|f: Seq<char>| Val::Str(f)))),
                after_reading(m1, Req::ListEntries(path)),
            )
        }),
{
    lemma_builtin_names_differ();
    let vals = seq![Val::Str(path)];
    assert(vals.len() == 1 && vals[0] == Val::Str(path));
    assert(sem_builtin(tape, m, "fs:readDir"@, vals, args) == sem_read_dir(tape, m, vals));
    let m1 = after_reading(m, Req::PathExists(path));
    if answers_next(tape, m, Out::Bool(false)) {
        assert(ask(tape, m, Req::PathExists(path)) == (Ok::<Out, Fault>(Out::Bool(false)), m1));
    }
    let es = files.map_values(|f: Seq<char>| (f, false));
    let listed = Out::Entries { entries: es, failure: None };
    if answers_next(tape, m, Out::Bool(true)) && answers_next(tape, m1, listed) {
        assert(ask(tape, m, Req::PathExists(path)) == (Ok::<Out, Fault>(Out::Bool(true)), m1));
        let m2 = after_reading(m1, Req::ListEntries(path));
        assert(ask(tape, m1, Req::ListEntries(path)) == (Ok::<Out, Fault>(listed), m2));
        lemma_files_only(tape, m2, es, files, 0);
        assert(files.take(0) =~= Seq::<Seq<char>>::empty());
        assert(sem_see_dir(tape, m1, path) == sem_entries(tape, m2, es, None, 0, Seq::empty()));
        assert(path_values(files) =~= files.map_values(|f: Seq<char>| Val::Str(f)));
    }
}

/// Walking entries that are all files lists their paths and reads nothing.
proof fn lemma_files_only(tape: Seq<Out>, m: Machine, es: Seq<(Seq<char>, bool)>, files: Seq<Seq<char>>, i: int)
    requires
        es == files.map_values(|f: Seq<char>| (f, false)),
        0 <= i <= files.len(),
    ensures
        sem_entries(tape, m, es, None, i, files.take(i)) == (Ok::<Seq<Seq<char>>, Fault>(files), m),
    decreases files.len() - i,
{
    if i < files.len() {
        assert(files.take(i).push(files[i]) =~= files.take(i + 1));
        lemma_files_only(tape, m, es, files, i + 1);
    } else {
        assert(files.take(i) =~= files);
    }
}

/// The special forms are refused, naming the form, before anything runs;
/// `return` gives its first argument's value, or nil without one.
pub proof fn law_special_forms_and_return(tape: Seq<Out>, m: Machine, name: Seq<char>, args: Seq<Tree>)
    ensures
        is_special_form(name) ==> sem_call(tape, m, name, args) == (Err::<Val, Fault>(Fault::Unsupported(name)), m),
        !is_special_form("return"@) && args.len() >= 1 ==> sem_call(tape, m, "return"@, args) == sem_value(tape, m, args[0]),
        !is_special_form("return"@) && args.len() == 0 ==> sem_call(tape, m, "return"@, args) == (Ok::<Val, Fault>(Val::Nil), m),
{
}

} // verus!
