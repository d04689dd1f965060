use lib::host::{Entry, Error, Outcome, Request};
use lib::interpreter::Interpreter;
use lib::node::{Node, NodeType};
use lib::value::Value;

fn empty() -> Interpreter {
    Interpreter::new(Node { ntype: NodeType::Scope, children: vec![] }, vec![])
}

fn with_tape(answers: Vec<Outcome>) -> Interpreter {
    let mut it = empty();
    it.tape = answers;
    it
}

fn string(s: &str) -> Value {
    Value::String(s.to_string())
}

fn count(min: usize, max: usize, found: usize) -> Error {
    Error::ArgumentCount { min, max, found }
}

fn not_a_string(t: &str) -> Error {
    Error::ExpectedString { found_type: t.to_string() }
}

#[test]
fn assert_accepts_only_true() {
    let mut it = empty();
    assert_eq!(it.assert_value(&vec![Value::Bool(true)]), Ok(Value::Nil));
    assert_eq!(it.assert_value(&vec![Value::Bool(false)]), Err(Error::AssertionFailed));
    assert_eq!(it.assert_value(&vec![Value::Int(1)]), Err(Error::AssertionFailed));
    assert_eq!(it.assert_value(&vec![]), Err(count(1, 1, 0)));
    assert_eq!(it.assert_value(&vec![Value::Nil, Value::Nil]), Err(count(1, 1, 2)));
}

#[test]
fn typeof_names_each_type() {
    let mut it = empty();
    let cases = vec![
        (Value::Nil, "nil"),
        (Value::Bool(false), "bool"),
        (Value::Int(3), "int"),
        (Value::Float(0), "float"),
        (string("s"), "string"),
        (Value::List(vec![]), "list"),
    ];
    for (v, name) in cases {
        assert_eq!(it._typeof(&vec![v]), Ok(string(name)));
    }
    assert_eq!(it._typeof(&vec![]), Err(count(1, 1, 0)));
}

#[test]
fn cast_asks_for_a_conversion() {
    let mut it = empty();
    assert_eq!(
        it.cast(&vec![string("int"), string("12")]),
        Err(Error::Suspended(Request::Convert { target: "int".to_string(), value: string("12") }))
    );
    assert_eq!(it.cast(&vec![Value::Int(1), string("12")]), Err(not_a_string("int")));
    assert_eq!(it.cast(&vec![string("int")]), Err(count(2, 2, 1)));
    let mut it = with_tape(vec![Outcome::Value(Value::Int(12))]);
    assert_eq!(it.cast(&vec![string("int"), string("12")]), Ok(Value::Int(12)));
}

#[test]
fn exists_without_a_string_is_false() {
    let mut it = empty();
    assert_eq!(it.exists_path(&vec![]), Ok(Value::Bool(false)));
    assert_eq!(it.exists_path(&vec![Value::Int(1)]), Ok(Value::Bool(false)));
    assert_eq!(it.next, 0);
    assert_eq!(it.exists_path(&vec![string("f")]), Err(Error::Suspended(Request::PathExists("f".to_string()))));
    let mut it = with_tape(vec![Outcome::Bool(true)]);
    assert_eq!(it.exists_path(&vec![string("f")]), Ok(Value::Bool(true)));
}

#[test]
fn read_dir_lists_or_gives_an_empty_list() {
    let mut it = with_tape(vec![Outcome::Bool(false)]);
    assert_eq!(it.read_dir(&vec![string("d")]), Ok(Value::List(vec![])));
    let mut it = with_tape(vec![Outcome::Bool(true), Outcome::Entries { entries: vec![file("d/a"), file("d/b")], failure: None }]);
    assert_eq!(it.read_dir(&vec![string("d")]), Ok(Value::List(vec![string("d/a"), string("d/b")])));
    assert_eq!(it.next, 2);
    let mut it = with_tape(vec![Outcome::Bool(true)]);
    assert_eq!(it.read_dir(&vec![string("d")]), Err(Error::Suspended(Request::ListEntries("d".to_string()))));
    let mut it = with_tape(vec![Outcome::Bool(true), Outcome::Failed("denied".to_string())]);
    assert_eq!(it.read_dir(&vec![string("d")]), Err(Error::Host("denied".to_string())));
    let mut it = empty();
    assert_eq!(it.read_dir(&vec![Value::Nil]), Err(not_a_string("nil")));
    assert_eq!(it.read_dir(&vec![]), Err(count(1, 1, 0)));
}

fn file(p: &str) -> Entry {
    Entry { path: p.to_string(), is_dir: false }
}

fn dir(p: &str) -> Entry {
    Entry { path: p.to_string(), is_dir: true }
}

#[test]
fn see_dir_walks_depth_first() {
    let mut it = with_tape(vec![
        Outcome::Entries { entries: vec![dir("d/x"), file("d/y")], failure: None },
        Outcome::Entries { entries: vec![file("d/x/1"), dir("d/x/2")], failure: None },
        Outcome::Entries { entries: vec![], failure: None },
    ]);
    assert_eq!(
        it.see_dir("d"),
        Ok(vec!["d/x".to_string(), "d/x/1".to_string(), "d/x/2".to_string(), "d/y".to_string()])
    );
    assert_eq!(it.next, 3);
    let mut it = with_tape(vec![Outcome::Entries { entries: vec![dir("d/x")], failure: None }]);
    assert_eq!(it.see_dir("d"), Err(Error::Suspended(Request::ListEntries("d/x".to_string()))));
}

#[test]
fn see_dir_stops_at_the_first_failure() {
    let mut it = with_tape(vec![Outcome::Entries { entries: vec![file("d/a")], failure: Some("bad entry".to_string()) }]);
    assert_eq!(it.see_dir("d"), Err(Error::Host("bad entry".to_string())));
    let mut it = with_tape(vec![
        Outcome::Entries { entries: vec![dir("d/x")], failure: Some("later".to_string()) },
        Outcome::Failed("denied".to_string()),
    ]);
    assert_eq!(it.see_dir("d"), Err(Error::Host("denied".to_string())));
    let mut it = with_tape(vec![Outcome::Failed("missing".to_string())]);
    assert_eq!(it.see_dir("d"), Err(Error::Host("missing".to_string())));
    let mut it = with_tape(vec![Outcome::Done]);
    assert_eq!(it.see_dir("d"), Err(Error::UnexpectedOutcome));
}

#[test]
fn print_scopes_lays_out_every_binding() {
    let it = empty();
    let shown = vec![vec!["3.1415927".to_string(), "[]".to_string()]];
    assert_eq!(
        it.print_scopes(&shown),
        "{\n\t\x1b[0;31mmath:PI => 3.1415927 \x1b[0;34m(float)\x1b[0m\n\t\x1b[0;31msys:args => [] \x1b[0;34m(list)\x1b[0m\n}\n"
    );
    let mut it = empty();
    it.scopes.push(lib::scope::Scope::new());
    let mut inner = lib::scope::Scope::new();
    inner.insert("v".to_string(), Value::Int(1), true);
    it.scopes.push(inner);
    let shown = vec![vec!["pi".to_string(), "args".to_string()], vec![], vec!["1".to_string()]];
    let report = it.print_scopes(&shown);
    assert!(report.ends_with("},{\n},{\n\t\x1b[0;32mv => 1 \x1b[0;34m(int)\x1b[0m\n}\n"));
}

#[test]
fn read_file_gives_the_text_or_nothing() {
    let mut it = with_tape(vec![Outcome::Bool(false)]);
    assert_eq!(it.read_file(&vec![string("f")]), Ok(string("")));
    let mut it = with_tape(vec![Outcome::Bool(true), Outcome::Text("body".to_string())]);
    assert_eq!(it.read_file(&vec![string("f")]), Ok(string("body")));
    assert_eq!(it.next, 2);
    let mut it = with_tape(vec![Outcome::Bool(true), Outcome::Done]);
    assert_eq!(it.read_file(&vec![string("f")]), Err(Error::UnexpectedOutcome));
    let mut it = empty();
    assert_eq!(it.read_file(&vec![Value::Bool(true)]), Err(not_a_string("bool")));
    assert_eq!(it.read_file(&vec![string("a"), string("b")]), Err(count(1, 1, 2)));
}

#[test]
fn create_and_remove_ask_for_the_work() {
    let mut it = empty();
    assert_eq!(it.create_file(&vec![string("f")]), Err(Error::Suspended(Request::CreateFile("f".to_string()))));
    assert_eq!(it.remove_file(&vec![string("f")]), Err(Error::Suspended(Request::RemoveFile("f".to_string()))));
    let mut it = with_tape(vec![Outcome::Done, Outcome::Failed("busy".to_string())]);
    assert_eq!(it.create_file(&vec![string("f")]), Ok(Value::Nil));
    assert_eq!(it.remove_file(&vec![string("f")]), Err(Error::Host("busy".to_string())));
    let mut it = empty();
    assert_eq!(it.create_file(&vec![Value::Int(1)]), Err(not_a_string("int")));
    assert_eq!(it.remove_file(&vec![]), Err(count(1, 1, 0)));
}

#[test]
fn write_file_appends_with_mode_a() {
    let mut it = with_tape(vec![Outcome::Bool(true)]);
    assert_eq!(
        it.write_file(&vec![string("f"), string("a"), Value::Int(5)]),
        Err(Error::Suspended(Request::WriteFile { path: "f".to_string(), append: true, content: Value::Int(5) }))
    );
    let mut it = with_tape(vec![Outcome::Bool(true)]);
    assert_eq!(
        it.write_file(&vec![string("f"), string("w"), string("x")]),
        Err(Error::Suspended(Request::WriteFile { path: "f".to_string(), append: false, content: string("x") }))
    );
    let mut it = with_tape(vec![Outcome::Bool(true), Outcome::Done]);
    assert_eq!(it.write_file(&vec![string("f"), string("a"), Value::Int(5)]), Ok(Value::Bool(true)));
    let mut it = with_tape(vec![Outcome::Bool(false)]);
    assert_eq!(it.write_file(&vec![string("f"), string("a"), Value::Int(5)]), Ok(Value::Bool(false)));
    // A mode that is not a string is reported by the type of the path.
    let mut it = with_tape(vec![Outcome::Bool(true)]);
    assert_eq!(it.write_file(&vec![string("f"), Value::Int(1), Value::Int(5)]), Err(not_a_string("string")));
    let mut it = empty();
    assert_eq!(it.write_file(&vec![Value::Nil, string("a"), Value::Int(5)]), Err(not_a_string("nil")));
    assert_eq!(it.write_file(&vec![string("f")]), Err(count(3, 3, 1)));
}

#[test]
fn breakpoint_pauses_under_a_name() {
    let mut it = empty();
    assert_eq!(it.breakpoint(&vec![]), Err(Error::Suspended(Request::Pause("UNNAMED_BREAKPOINT".to_string()))));
    assert_eq!(it.breakpoint(&vec![string("here")]), Err(Error::Suspended(Request::Pause("here".to_string()))));
    assert_eq!(it.breakpoint(&vec![Value::Int(1)]), Err(not_a_string("int")));
    assert_eq!(it.breakpoint(&vec![Value::Nil, Value::Nil]), Err(count(0, 1, 2)));
    let mut it = with_tape(vec![Outcome::Done]);
    assert_eq!(it.breakpoint(&vec![string("here")]), Ok(Value::Nil));
}

#[test]
fn import_runs_each_file_in_the_current_scope() {
    let program = Node {
        ntype: NodeType::Scope,
        children: vec![Node {
            ntype: NodeType::FunctionCall("typeof".to_string()),
            children: vec![Node { ntype: NodeType::Int(1), children: vec![] }],
        }],
    };
    let mut it = with_tape(vec![Outcome::Bool(true), Outcome::Program(program)]);
    assert_eq!(it.import(&vec![string("lib.or")]), Ok(Value::Nil));
    assert_eq!(it.next, 2);
    assert_eq!(it.scopes.len(), 1);
    let mut it = with_tape(vec![Outcome::Bool(false)]);
    assert_eq!(it.import(&vec![string("gone.or")]), Err(Error::MissingFile("gone.or".to_string())));
    let mut it = with_tape(vec![Outcome::Bool(true)]);
    assert_eq!(it.import(&vec![string("lib.or")]), Err(Error::Suspended(Request::Load("lib.or".to_string()))));
    let mut it = with_tape(vec![Outcome::Bool(true), Outcome::Failed("syntax error".to_string())]);
    assert_eq!(it.import(&vec![string("lib.or")]), Err(Error::Host("syntax error".to_string())));
    let mut it = empty();
    assert_eq!(it.import(&vec![Value::Int(2)]), Err(not_a_string("int")));
    assert_eq!(it.import(&vec![]), Ok(Value::Nil));
}

#[test]
fn import_through_a_call_evaluates_its_arguments_first() {
    let failing = Node {
        ntype: NodeType::Scope,
        children: vec![Node {
            ntype: NodeType::FunctionCall("assert".to_string()),
            children: vec![Node { ntype: NodeType::Bool(false), children: vec![] }],
        }],
    };
    let mut it = with_tape(vec![Outcome::Bool(true), Outcome::Program(failing)]);
    let args = vec![Node { ntype: NodeType::String("lib.or".to_string()), children: vec![] }];
    assert_eq!(it.eval_call("import", &args), Err(Error::AssertionFailed));
}

#[test]
fn only_a_failed_assertion_ends_the_program() {
    assert!(Error::AssertionFailed.ends_program());
    assert!(!Error::NotACall.ends_program());
    assert!(!Error::Unsupported("define".to_string()).ends_program());
    let mut it = empty();
    let e = it.assert_value(&vec![Value::Int(1)]).unwrap_err();
    assert!(e.ends_program());
}
