use vstd::prelude::*;
use crate::value::{Value, Val, vals_of, lemma_vals_of, lemma_vals_of_push};
use crate::node::{Node, NodeType, trees_of, lemma_trees_of};
use crate::scope::{Scope, same_name};
use crate::host::{Request, Outcome, Error, Out, outs_of, result_model};
use crate::semantics::{Machine, remaining, rewound, ask, lookup, is_special_form, sem_calls, sem_scope, sem_value, sem_call, sem_args, sem_builtin};

verus! {

broadcast use vstd::std_specs::vec::axiom_vec_decreases_to_view;

/// The bit pattern of the single-precision float closest to pi.
pub const PI_BITS: u32 = 0x40490fdb;

/// An interpreter: a stack of scopes (the innermost last), the program it was
/// made for, and the tape of answers to the outside work it asks for.
///
/// Evaluation asks for outside work through [`Request`]s. The `next` answer on
/// `tape` answers each request in turn; when the tape is used up, evaluation
/// stops with [`Error::Suspended`] holding the request. The embedding program
/// then does the work, appends the answer, and runs a fresh interpreter over
/// the longer tape: evaluation depends on nothing but the program, the
/// arguments and the tape, so the run replays to the same point and goes on.
pub struct Interpreter {
    pub scopes: Vec<Scope>,
    pub ast: Node,
    pub tape: Vec<Outcome>,
    pub next: usize,
    /// The requests that answers on the tape were read for, in order.
    pub answered: Ghost<Seq<crate::host::Req>>,
}

/// The value that lists the program's arguments.
pub open spec fn args_value(args: Seq<String>) -> Val {
    Val::List(args.map_values(|s: String| Val::Str(s@)))
}

/// The scope every interpreter starts with: the program's arguments and pi,
/// both immutable.
pub open spec fn prelude_scope(args: Seq<String>) -> Map<Seq<char>, (Val, bool)> {
    Map::empty().insert("sys:args"@, (args_value(args), false)).insert(
        "math:PI"@,
        (Val::Float(PI_BITS), false),
    )
}

impl Interpreter {
    /// The model of this interpreter's state.
    pub open spec fn machine(&self) -> Machine {
        Machine {
            scopes: self.scopes@.map_values(|s: Scope| s@),
            next: self.next as nat,
            answered: self.answered@,
        }
    }

    /// The models of the answers on the tape.
    pub open spec fn answers(&self) -> Seq<Out> {
        outs_of(self.tape@)
    }

    /// How many answers are still unread.
    pub open spec fn unread(&self) -> nat {
        remaining(self.answers(), self.machine())
    }

    /// `later` is this interpreter after evaluating: same program, same tape,
    /// and no answer read twice.
    pub open spec fn leads_to(&self, later: &Interpreter) -> bool {
        &&& later.tape@ == self.tape@
        &&& later.ast == self.ast
        &&& later.next >= self.next
    }

    /// An interpreter for `ast`, whose outermost scope binds `sys:args` to the
    /// list of `args` and `math:PI` to pi, with an empty tape.
    pub fn new(ast: Node, args: Vec<String>) -> (res: Interpreter)
        ensures
            res.ast == ast,
            res.tape@.len() == 0,
            res.next == 0,
            res.answered@.len() == 0,
            res.machine().scopes == seq![prelude_scope(args@)],
    {
        let mut master = Scope::new();
        let mut listed: Vec<Value> = Vec::new();
        let mut i: usize = 0;
        while i < args.len()
            invariant
                i <= args.len(),
                listed@.len() == i,
                forall|j: int| 0 <= j < i ==> #[trigger] listed@[j].model() == Val::Str(args@[j]@),
            decreases args.len() - i,
        {
            listed.push(Value::String(args[i].clone()));
            i = i + 1;
        }
        proof {
            lemma_vals_of(listed@);
            assert(vals_of(listed@) =~= args@.map_values(|s: String| Val::Str(s@)));
        }
        master.insert(String::from_str("sys:args"), Value::List(listed), false);
        master.insert(String::from_str("math:PI"), Value::Float(PI_BITS), false);
        let res = Interpreter {
            scopes: vec![master],
            ast,
            tape: Vec::new(),
            next: 0,
            answered: Ghost(Seq::empty()),
        };
        assert(res.machine().scopes =~= seq![prelude_scope(args@)]);
        res
    }

    /// Runs the statements of `ast` in the current scope.
    pub fn process_ast(&mut self, ast: &Node) -> (res: Result<Value, Error>)
        ensures
            old(self).leads_to(final(self)),
            res is Ok ==> final(self).machine().scopes == old(self).machine().scopes,
            (result_model(res), final(self).machine()) == sem_calls(
                old(self).answers(),
                old(self).machine(),
                ast.model().children,
                0,
            ),
    {
        self.eval_calls(&ast.children)
    }

    /// A copy of the program.
    pub fn get_ast(&mut self) -> (res: Node)
        ensures
            *final(self) == *old(self),
            res.model() == old(self).ast.model(),
    {
        self.ast.duplicate()
    }

    /// Runs the program as a scope of its own.
    pub fn eval(&mut self) -> (res: Result<Value, Error>)
        ensures
            old(self).leads_to(final(self)),
            res is Ok ==> final(self).machine().scopes == old(self).machine().scopes,
            (result_model(res), final(self).machine()) == sem_scope(
                old(self).answers(),
                old(self).machine(),
                old(self).ast.model(),
            ),
    {
        let ast = self.get_ast();
        self.eval_scope(&ast)
    }

    /// The next answer on the tape, or suspension on `req` when there is none.
    pub(crate) fn ask(&mut self, req: Request) -> (res: Result<Outcome, Error>)
        ensures
            final(self).scopes == old(self).scopes,
            old(self).leads_to(final(self)),
            (match res {
                Ok(o) => Ok(o.model()),
                Err(e) => Err(e.model()),
            }, final(self).machine()) == ask(old(self).answers(), old(self).machine(), req.model()),
    {
        if self.next < self.tape.len() {
            let o = self.tape[self.next].duplicate();
            proof {
                self.answered@ = self.answered@.push(req.model());
            }
            self.next = self.next + 1;
            Ok(o)
        } else {
            Err(Error::Suspended(req))
        }
    }

    /// The value of `id` in the innermost scope that binds it.
    pub fn identifier(&mut self, id: &str) -> (res: Result<Value, Error>)
        ensures
            *final(self) == *old(self),
            result_model(res) == match lookup(old(self).machine().scopes, id@) {
                Some(v) => Ok(v),
                None => Err(crate::host::Fault::Unbound(id@)),
            },
    {
        let ghost all = self.machine().scopes;
        assert(all.take(all.len() as int) =~= all);
        let mut i: usize = self.scopes.len();
        while i > 0
            invariant
                i <= self.scopes@.len(),
                all == self.machine().scopes,
                lookup(all, id@) == lookup(all.take(i as int), id@),
            decreases i,
        {
            i = i - 1;
            assert(all.take(i + 1).drop_last() =~= all.take(i as int));
            match self.scopes[i].get(id) {
                Some(b) => {
                    return Ok(b.value.duplicate());
                },
                None => {},
            }
        }
        assert(all.take(0) =~= Seq::<Map<Seq<char>, (Val, bool)>>::empty());
        Err(Error::Unbound(id.to_owned()))
    }

    /// Runs the statements of `scope` in a fresh innermost scope, dropped again
    /// when they succeed.
    pub fn eval_scope(&mut self, scope: &Node) -> (res: Result<Value, Error>)
        ensures
            old(self).leads_to(final(self)),
            res is Ok ==> final(self).machine().scopes == old(self).machine().scopes,
            (result_model(res), final(self).machine()) == sem_scope(
                old(self).answers(),
                old(self).machine(),
                scope.model(),
            ),
        decreases old(self).unread(), scope, 4nat, 0nat,
    {
        let ghost m0 = self.machine();
        self.scopes.push(Scope::new());
        assert(self.machine().scopes =~= m0.scopes.push(Map::empty()));
        let toret = self.eval_calls(&scope.children);
        match toret {
            Err(e) => Err(e),
            Ok(v) => {
                let ghost before = self.machine().scopes;
                self.scopes.pop();
                assert(self.machine().scopes =~= before.drop_last());
                Ok(v)
            },
        }
    }

    /// The value of a node: literals stand for themselves, names are looked
    /// up, scopes and calls are evaluated.
    pub fn to_value(&mut self, node: &Node) -> (res: Result<Value, Error>)
        ensures
            old(self).leads_to(final(self)),
            res is Ok ==> final(self).machine().scopes == old(self).machine().scopes,
            (result_model(res), final(self).machine()) == sem_value(
                old(self).answers(),
                old(self).machine(),
                node.model(),
            ),
        decreases old(self).unread(), node, 5nat, 0nat,
    {
        match &node.ntype {
            NodeType::Bool(b) => Ok(Value::Bool(*b)),
            NodeType::Scope => self.eval_scope(node),
            NodeType::Int(i) => Ok(Value::Int(*i)),
            NodeType::Float(f) => Ok(Value::Float(*f)),
            NodeType::Nil => Ok(Value::Nil),
            NodeType::String(s) => Ok(Value::String(s.clone())),
            NodeType::FunctionCall(f) => self.eval_call(f.as_str(), &node.children),
            NodeType::Identifier(id) => self.identifier(id.as_str()),
        }
    }

    /// Runs a body: every statement must be a call; the last one, or the first
    /// `return`, gives the value.
    pub fn eval_calls(&mut self, children: &Vec<Node>) -> (res: Result<Value, Error>)
        ensures
            old(self).leads_to(final(self)),
            res is Ok ==> final(self).machine().scopes == old(self).machine().scopes,
            (result_model(res), final(self).machine()) == sem_calls(
                old(self).answers(),
                old(self).machine(),
                trees_of(children@),
                0,
            ),
        decreases old(self).unread(), children, 3nat, children@.len() + 1,
    {
        let ghost tape = self.answers();
        let ghost m0 = self.machine();
        let ghost cs = trees_of(children@);
        proof {
            lemma_trees_of(children@);
        }
        let mut i: usize = 0;
        while i < children.len()
            invariant
                i <= children@.len(),
                cs == trees_of(children@),
                cs.len() == children@.len(),
                forall|j: int| 0 <= j < children@.len() ==> #[trigger] cs[j] == children@[j].model(),
                tape == self.answers(),
                tape == old(self).answers(),
                m0 == old(self).machine(),
                old(self).leads_to(self),
                self.unread() <= old(self).unread(),
                self.machine().scopes == m0.scopes,
                sem_calls(tape, m0, cs, 0) == sem_calls(tape, self.machine(), cs, i as int),
            decreases children@.len() - i,
        {
            let child = &children[i];
            assert(decreases_to!(children => child.children));
            proof {
                lemma_trees_of(child.children@);
                assert(cs[i as int] == child.model());
                assert(child.model().kind == child.ntype.model());
                assert(child.model().children == trees_of(child.children@));
            }
            match &child.ntype {
                NodeType::FunctionCall(s) => {
                    if i == children.len() - 1 || same_name(s.as_str(), "return") {
                        let r = self.eval_call(s.as_str(), &child.children);
                        return r;
                    } else {
                        let ghost before = self.machine();
                        let r = self.eval_call(s.as_str(), &child.children);
                        match r {
                            Err(e) => {
                                return Err(e);
                            },
                            Ok(_) => {},
                        }
                        assert(!rewound(tape, before, self.machine()));
                    }
                },
                _ => {
                    assert(!(cs[i as int].kind is Call));
                    assert(sem_calls(tape, self.machine(), cs, i as int) == (Err::<Val, crate::host::Fault>(crate::host::Fault::NotACall), self.machine()));
                    return Err(Error::NotACall);
                },
            }
            i = i + 1;
        }
        Ok(Value::Nil)
    }

    /// Whether `name` names a special form this evaluator does not hold.
    fn special_form(name: &str) -> (res: bool)
        ensures
            res == is_special_form(name@),
    {
        same_name(name, "define") || same_name(name, "var") || same_name(name, "set")
            || same_name(name, "drop") || same_name(name, "if") || same_name(name, "match")
            || same_name(name, "while") || same_name(name, "lambda") || same_name(name, "+")
            || same_name(name, "*") || same_name(name, "/") || same_name(name, "%")
            || same_name(name, "-") || same_name(name, "=") || same_name(name, "!=")
            || same_name(name, "<") || same_name(name, ">") || same_name(name, "<=")
            || same_name(name, ">=") || same_name(name, "|") || same_name(name, "&")
            || same_name(name, "!")
    }

    /// A call: special forms this evaluator does not hold are refused;
    /// `return` gives its first argument; anything else has its arguments
    /// evaluated in order and goes to the builtin of its name.
    pub fn eval_call(&mut self, name: &str, args: &Vec<Node>) -> (res: Result<Value, Error>)
        ensures
            old(self).leads_to(final(self)),
            res is Ok ==> final(self).machine().scopes == old(self).machine().scopes,
            (result_model(res), final(self).machine()) == sem_call(
                old(self).answers(),
                old(self).machine(),
                name@,
                trees_of(args@),
            ),
        decreases old(self).unread(), args, 3nat, 0nat,
    {
        let ghost tape = self.answers();
        let ghost m0 = self.machine();
        let ghost ts = trees_of(args@);
        proof {
            lemma_trees_of(args@);
        }
        if Self::special_form(name) {
            return Err(Error::Unsupported(name.to_owned()));
        }
        if same_name(name, "return") {
            if args.len() < 1 {
                return Ok(Value::Nil);
            } else {
                assert(decreases_to!(args => args@[0]));
                return self.to_value(&args[0]);
            }
        }
        let mut valued: Vec<Value> = Vec::new();
        let mut i: usize = 0;
        while i < args.len()
            invariant
                i <= args@.len(),
                ts == trees_of(args@),
                ts.len() == args@.len(),
                forall|j: int| 0 <= j < args@.len() ==> #[trigger] ts[j] == args@[j].model(),
                tape == self.answers(),
                tape == old(self).answers(),
                m0 == old(self).machine(),
                old(self).leads_to(self),
                self.unread() <= old(self).unread(),
                self.machine().scopes == m0.scopes,
                !is_special_form(name@),
                name@ != "return"@,
                sem_args(tape, m0, ts, 0, Seq::empty()) == sem_args(
                    tape,
                    self.machine(),
                    ts,
                    i as int,
                    vals_of(valued@),
                ),
            decreases args@.len() - i,
        {
            assert(decreases_to!(args => args@[i as int]));
            assert(ts[i as int] == args@[i as int].model());
            let ghost before = self.machine();
            let v = self.to_value(&args[i]);
            match v {
                Err(e) => {
                    return Err(e);
                },
                Ok(v) => {
                    proof {
                        lemma_vals_of_push(valued@, v);
                    }
                    valued.push(v);
                },
            }
            assert(!rewound(tape, before, self.machine()));
            i = i + 1;
        }
        assert(!rewound(tape, m0, self.machine()));
        self.builtin(name, &valued, Ghost(*args))
    }

    /// The builtin named `name` on evaluated arguments; `syntax`, the call's
    /// arguments, only bounds the recursion through `import`.
    fn builtin(&mut self, name: &str, args: &Vec<Value>, Ghost(syntax): Ghost<Vec<Node>>) -> (res: Result<Value, Error>)
        ensures
            old(self).leads_to(final(self)),
            res is Ok ==> final(self).machine().scopes == old(self).machine().scopes,
            (result_model(res), final(self).machine()) == sem_builtin(
                old(self).answers(),
                old(self).machine(),
                name@,
                vals_of(args@),
                trees_of(syntax@),
            ),
        decreases old(self).unread(), syntax, 1nat, 0nat,
    {
        if same_name(name, "assert") {
            self.assert_value(args)
        } else if same_name(name, "typeof") {
            self._typeof(args)
        } else if same_name(name, "import") {
            self.run_imports(args, Ghost(syntax))
        } else if same_name(name, "static_cast") {
            self.cast(args)
        } else if same_name(name, "fs:exists?") {
            self.exists_path(args)
        } else if same_name(name, "fs:readDir") {
            self.read_dir(args)
        } else if same_name(name, "fs:readFile") {
            self.read_file(args)
        } else if same_name(name, "fs:writeFile") {
            self.write_file(args)
        } else if same_name(name, "fs:createFile") {
            self.create_file(args)
        } else if same_name(name, "fs:removeFile") {
            self.remove_file(args)
        } else if same_name(name, "sys:breakpoint") {
            self.breakpoint(args)
        } else {
            self.call_host(name, args)
        }
    }
}

} // verus!
