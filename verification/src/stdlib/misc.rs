use vstd::prelude::*;
use crate::value::{Value, vals_of, lemma_vals_of};
use crate::node::{Node, trees_of};
use crate::host::{Request, Outcome, Error, result_model};
use crate::interpreter::Interpreter;
use crate::semantics::{rewound, answer_value, answer_done, sem_assert, sem_typeof, sem_cast, sem_imports};

verus! {

impl Interpreter {
    /// `assert`: nil when the one argument is `true`. Any other argument is a
    /// failed assertion: `Error::AssertionFailed`, the one error that ends the
    /// program (`Error::ends_program`), on which the embedding program stops.
    pub fn assert_value(&mut self, args: &Vec<Value>) -> (res: Result<Value, Error>)
        ensures
            *final(self) == *old(self),
            result_model(res) == sem_assert(vals_of(args@)),
    {
        proof {
            lemma_vals_of(args@);
        }
        if args.len() != 1 {
            return Err(Error::ArgumentCount { min: 1, max: 1, found: args.len() });
        }
        match &args[0] {
            Value::Bool(b) => {
                if *b {
                    Ok(Value::Nil)
                } else {
                    Err(Error::AssertionFailed)
                }
            },
            _ => Err(Error::AssertionFailed),
        }
    }

    /// `typeof`: the name of the one argument's type.
    pub fn _typeof(&mut self, args: &Vec<Value>) -> (res: Result<Value, Error>)
        ensures
            *final(self) == *old(self),
            result_model(res) == sem_typeof(vals_of(args@)),
    {
        proof {
            lemma_vals_of(args@);
        }
        if args.len() != 1 {
            return Err(Error::ArgumentCount { min: 1, max: 1, found: args.len() });
        }
        Ok(Value::String(args[0].get_type()))
    }

    /// `static_cast type value`: the value converted to the named type, by
    /// the embedding program.
    pub fn cast(&mut self, args: &Vec<Value>) -> (res: Result<Value, Error>)
        ensures
            old(self).leads_to(final(self)),
            final(self).scopes == old(self).scopes,
            (result_model(res), final(self).machine()) == sem_cast(
                old(self).answers(),
                old(self).machine(),
                vals_of(args@),
            ),
    {
        proof {
            lemma_vals_of(args@);
        }
        if args.len() != 2 {
            return Err(Error::ArgumentCount { min: 2, max: 2, found: args.len() });
        }
        match &args[0] {
            Value::String(s) => {
                let o = match self.ask(Request::Convert { target: s.clone(), value: args[1].duplicate() }) {
                        Ok(o) => o,
                        Err(e) => {
                            return Err(e);
                        },
                    };
                self.answer_value(o)
            },
            _ => Err(Error::ExpectedString { found_type: args[0].get_type() }),
        }
    }

    /// What an answer that should carry a value gives back.
    pub(crate) fn answer_value(&self, o: Outcome) -> (res: Result<Value, Error>)
        ensures
            result_model(res) == answer_value(o.model()),
    {
        match o {
            Outcome::Value(v) => Ok(v),
            Outcome::Failed(msg) => Err(Error::Host(msg)),
            _ => Err(Error::UnexpectedOutcome),
        }
    }

    /// What an answer that should report success gives back: `v` on success.
    pub(crate) fn answer_done(&self, o: Outcome, v: Value) -> (res: Result<Value, Error>)
        ensures
            result_model(res) == answer_done(o.model(), v.model()),
    {
        match o {
            Outcome::Done => Ok(v),
            Outcome::Failed(msg) => Err(Error::Host(msg)),
            _ => Err(Error::UnexpectedOutcome),
        }
    }

    /// `import`: each argument must name an existing file, whose program
    /// then runs in the current scope, one file after the other. (The last
    /// argument of `sem_imports` only bounds its recursion.)
    pub fn import(&mut self, args: &Vec<Value>) -> (res: Result<Value, Error>)
        ensures
            old(self).leads_to(final(self)),
            res is Ok ==> final(self).machine().scopes == old(self).machine().scopes,
            (result_model(res), final(self).machine()) == sem_imports(
                old(self).answers(),
                old(self).machine(),
                vals_of(args@),
                0,
                Seq::empty(),
            ),
    {
        let none: Vec<Node> = Vec::new();
        let res = self.run_imports(args, Ghost(none));
        assert(trees_of(none@) =~= Seq::empty());
        res
    }

    /// `import` as the evaluator runs it; `syntax`, the call's arguments, only
    /// bounds the recursion.
    pub(crate) fn run_imports(&mut self, args: &Vec<Value>, Ghost(syntax): Ghost<Vec<Node>>) -> (res: Result<Value, Error>)
        ensures
            old(self).leads_to(final(self)),
            res is Ok ==> final(self).machine().scopes == old(self).machine().scopes,
            (result_model(res), final(self).machine()) == sem_imports(
                old(self).answers(),
                old(self).machine(),
                vals_of(args@),
                0,
                trees_of(syntax@),
            ),
        decreases old(self).unread(), syntax, 0nat, 0nat,
    {
        let ghost tape = self.answers();
        let ghost m0 = self.machine();
        let ghost vals = vals_of(args@);
        let ghost ts = trees_of(syntax@);
        proof {
            lemma_vals_of(args@);
        }
        let mut j: usize = 0;
        while j < args.len()
            invariant
                j <= args@.len(),
                vals == vals_of(args@),
                ts == trees_of(syntax@),
                vals.len() == args@.len(),
                forall|k: int| 0 <= k < args@.len() ==> #[trigger] vals[k] == args@[k].model(),
                tape == self.answers(),
                tape == old(self).answers(),
                m0 == old(self).machine(),
                old(self).leads_to(self),
                self.unread() <= old(self).unread(),
                self.machine().scopes == m0.scopes,
                sem_imports(tape, m0, vals, 0, ts) == sem_imports(tape, self.machine(), vals, j as int, ts),
            decreases args@.len() - j,
        {
            let ghost before = self.machine();
            match &args[j] {
                Value::String(s) => {
                    let o1 = match self.ask(Request::PathExists(s.clone())) {
                        Ok(o) => o,
                        Err(e) => {
                            return Err(e);
                        },
                    };
                    match o1 {
                        Outcome::Bool(true) => {},
                        Outcome::Bool(false) => {
                            return Err(Error::MissingFile(s.clone()));
                        },
                        _ => {
                            return Err(Error::UnexpectedOutcome);
                        },
                    }
                    let o2 = match self.ask(Request::Load(s.clone())) {
                        Ok(o) => o,
                        Err(e) => {
                            return Err(e);
                        },
                    };
                    match o2 {
                        Outcome::Program(p) => {
                            assert(self.unread() < old(self).unread());
                            let r = self.eval_calls(&p.children);
                            match r {
                                Err(e) => {
                                    return Err(e);
                                },
                                Ok(_) => {},
                            }
                            assert(!rewound(tape, before, self.machine()));
                        },
                        Outcome::Failed(msg) => {
                            return Err(Error::Host(msg));
                        },
                        _ => {
                            return Err(Error::UnexpectedOutcome);
                        },
                    }
                },
                _ => {
                    return Err(Error::ExpectedString { found_type: args[j].get_type() });
                },
            }
            j = j + 1;
        }
        Ok(Value::Nil)
    }
}

} // verus!
