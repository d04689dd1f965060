use lib::host::{Error, Outcome, Request};
use lib::interpreter::{Interpreter, PI_BITS};
use lib::node::{Node, NodeType};
use lib::scope::Scope;
use lib::value::Value;

fn leaf(ntype: NodeType) -> Node {
    Node { ntype, children: vec![] }
}

fn integer(i: i32) -> Node {
    leaf(NodeType::Int(i))
}

fn text(s: &str) -> Node {
    leaf(NodeType::String(s.to_string()))
}

fn ident(s: &str) -> Node {
    leaf(NodeType::Identifier(s.to_string()))
}

fn call(name: &str, children: Vec<Node>) -> Node {
    Node { ntype: NodeType::FunctionCall(name.to_string()), children }
}

fn scope(children: Vec<Node>) -> Node {
    Node { ntype: NodeType::Scope, children }
}

fn interpreter(program: Node) -> Interpreter {
    Interpreter::new(program, vec!["first".to_string(), "second".to_string()])
}

fn string(s: &str) -> Value {
    Value::String(s.to_string())
}

#[test]
fn new_binds_arguments_and_pi() {
    let mut it = interpreter(scope(vec![]));
    assert_eq!(it.scopes.len(), 1);
    assert_eq!(it.next, 0);
    assert!(it.tape.is_empty());
    let names: Vec<String> = it.scopes[0].bindings().iter().map(|b| b.name.clone()).collect();
    assert_eq!(names, vec!["math:PI".to_string(), "sys:args".to_string()]);
    assert!(it.scopes[0].bindings().iter().all(|b| !b.mutable));
    assert_eq!(it.identifier("sys:args"), Ok(Value::List(vec![string("first"), string("second")])));
    assert_eq!(it.identifier("math:PI"), Ok(Value::Float(PI_BITS)));
    assert_eq!(PI_BITS, std::f32::consts::PI.to_bits());
}

#[test]
fn identifier_prefers_the_innermost_scope() {
    let mut it = interpreter(scope(vec![]));
    let mut outer = Scope::new();
    outer.insert("x".to_string(), Value::Int(1), true);
    outer.insert("y".to_string(), Value::Int(2), false);
    let mut inner = Scope::new();
    inner.insert("x".to_string(), Value::Int(10), false);
    it.scopes.push(outer);
    it.scopes.push(inner);
    assert_eq!(it.identifier("x"), Ok(Value::Int(10)));
    assert_eq!(it.identifier("y"), Ok(Value::Int(2)));
    assert_eq!(it.identifier("z"), Err(Error::Unbound("z".to_string())));
}

#[test]
fn literals_evaluate_to_themselves() {
    let mut it = interpreter(scope(vec![]));
    assert_eq!(it.to_value(&integer(7)), Ok(Value::Int(7)));
    assert_eq!(it.to_value(&leaf(NodeType::Bool(true))), Ok(Value::Bool(true)));
    assert_eq!(it.to_value(&leaf(NodeType::Nil)), Ok(Value::Nil));
    assert_eq!(it.to_value(&leaf(NodeType::Float(0x3f800000))), Ok(Value::Float(0x3f800000)));
    assert_eq!(it.to_value(&text("hi")), Ok(string("hi")));
    assert_eq!(it.to_value(&ident("sys:args")), Ok(Value::List(vec![string("first"), string("second")])));
}

#[test]
fn eval_gives_the_value_of_the_last_call() {
    let program = scope(vec![call("typeof", vec![integer(1)]), call("typeof", vec![text("a")])]);
    let mut it = interpreter(program);
    assert_eq!(it.eval(), Ok(string("string")));
    assert_eq!(it.scopes.len(), 1);
}

#[test]
fn eval_of_an_empty_program_is_nil() {
    let mut it = interpreter(scope(vec![]));
    assert_eq!(it.eval(), Ok(Value::Nil));
}

#[test]
fn return_ends_the_body_early() {
    let program = scope(vec![
        call("return", vec![integer(1)]),
        call("assert", vec![leaf(NodeType::Bool(false))]),
    ]);
    let mut it = interpreter(program);
    assert_eq!(it.eval(), Ok(Value::Int(1)));
}

#[test]
fn return_without_argument_is_nil() {
    let mut it = interpreter(scope(vec![]));
    assert_eq!(it.eval_call("return", &vec![]), Ok(Value::Nil));
}

#[test]
fn a_statement_that_is_not_a_call_is_refused() {
    let mut it = interpreter(scope(vec![integer(1), call("typeof", vec![integer(1)])]));
    assert_eq!(it.eval(), Err(Error::NotACall));
    // The scope of the failed body is not dropped.
    assert_eq!(it.scopes.len(), 2);
}

#[test]
fn special_forms_are_not_held() {
    let mut it = interpreter(scope(vec![call("define", vec![ident("x"), integer(1)])]));
    assert_eq!(it.eval(), Err(Error::Unsupported("define".to_string())));
    let mut it = interpreter(scope(vec![]));
    assert_eq!(it.eval_call("+", &vec![integer(1), integer(2)]), Err(Error::Unsupported("+".to_string())));
}

#[test]
fn nested_scopes_are_dropped_after_success() {
    let program = scope(vec![call("return", vec![scope(vec![call("typeof", vec![leaf(NodeType::Nil)])])])]);
    let mut it = interpreter(program);
    assert_eq!(it.eval(), Ok(string("nil")));
    assert_eq!(it.scopes.len(), 1);
}

#[test]
fn arguments_are_evaluated_before_the_builtin() {
    let mut it = interpreter(scope(vec![]));
    let r = it.eval_call("typeof", &vec![ident("missing")]);
    assert_eq!(r, Err(Error::Unbound("missing".to_string())));
}

#[test]
fn process_ast_runs_in_the_current_scope() {
    let mut it = interpreter(scope(vec![]));
    let r = it.process_ast(&scope(vec![call("typeof", vec![ident("math:PI")])]));
    assert_eq!(r, Ok(string("float")));
    assert_eq!(it.scopes.len(), 1);
}

#[test]
fn get_ast_copies_the_program() {
    let program = scope(vec![call("typeof", vec![integer(1)])]);
    let mut it = interpreter(scope(vec![call("typeof", vec![integer(1)])]));
    assert_eq!(it.get_ast(), program);
    assert_eq!(it.ast, program);
}

#[test]
fn unknown_functions_go_to_the_host() {
    let program = scope(vec![call("print", vec![integer(1), text("x")])]);
    let mut it = interpreter(program);
    let r = it.eval();
    assert_eq!(
        r,
        Err(Error::Suspended(Request::Call { name: "print".to_string(), args: vec![Value::Int(1), string("x")] }))
    );
    let mut it = interpreter(scope(vec![call("print", vec![integer(1), text("x")])]));
    it.tape.push(Outcome::Value(Value::Nil));
    assert_eq!(it.eval(), Ok(Value::Nil));
    assert_eq!(it.next, 1);
    let mut it = interpreter(scope(vec![call("print", vec![])]));
    it.tape.push(Outcome::Failed("no such function".to_string()));
    assert_eq!(it.eval(), Err(Error::Host("no such function".to_string())));
}

#[test]
fn a_wrong_answer_is_reported() {
    let mut it = interpreter(scope(vec![call("fs:exists?", vec![text("a")])]));
    it.tape.push(Outcome::Text("?".to_string()));
    assert_eq!(it.eval(), Err(Error::UnexpectedOutcome));
}

#[test]
fn replay_goes_past_the_last_stop() {
    let program = || {
        scope(vec![
            call("fs:exists?", vec![text("a")]),
            call("fs:exists?", vec![text("b")]),
        ])
    };
    let mut it = interpreter(program());
    assert_eq!(it.eval(), Err(Error::Suspended(Request::PathExists("a".to_string()))));
    assert_eq!(it.next, 0);

    let mut it = interpreter(program());
    it.tape.push(Outcome::Bool(true));
    assert_eq!(it.eval(), Err(Error::Suspended(Request::PathExists("b".to_string()))));
    assert_eq!(it.next, 1);

    let mut it = interpreter(program());
    it.tape.push(Outcome::Bool(true));
    it.tape.push(Outcome::Bool(false));
    assert_eq!(it.eval(), Ok(Value::Bool(false)));
    assert_eq!(it.next, 2);

    // Answers beyond what the run needs are left unread.
    let mut it = interpreter(program());
    it.tape.push(Outcome::Bool(true));
    it.tape.push(Outcome::Bool(false));
    it.tape.push(Outcome::Done);
    assert_eq!(it.eval(), Ok(Value::Bool(false)));
    assert_eq!(it.next, 2);
}
