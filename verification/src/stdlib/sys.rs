use vstd::prelude::*;
use crate::value::{Value, vals_of, lemma_vals_of, duplicate_values, kind_name};
use crate::host::{Request, Error, result_model, texts_of};
use crate::scope::{Binding, Scope};
use crate::interpreter::Interpreter;
use crate::semantics::{sem_breakpoint, sem_host_call};

verus! {

/// The line a scope report gives a binding, whose value prints as `shown`:
/// green for a mutable binding, red for an immutable one, then its type.
pub open spec fn binding_line(b: Binding, shown: Seq<char>) -> Seq<char> {
    "\t\x1b[0;"@ + (if b.mutable { "32"@ } else { "31"@ }) + "m"@ + b.name@ + " => "@ + shown
        + " \x1b[0;34m("@ + kind_name(b.value.model()) + ")\x1b[0m\n"@
}

/// The lines of the first `bs.len()` bindings of a scope.
pub open spec fn binding_lines(bs: Seq<Binding>, shown: Seq<Seq<char>>) -> Seq<char>
    decreases bs.len(),
{
    if bs.len() == 0 {
        Seq::empty()
    } else {
        binding_lines(bs.drop_last(), shown) + binding_line(bs.last(), shown[bs.len() - 1])
    }
}

/// One scope of the report: its binding lines in braces.
pub open spec fn scope_block(bs: Seq<Binding>, shown: Seq<Seq<char>>) -> Seq<char> {
    "{\n"@ + binding_lines(bs, shown) + "}"@
}

/// The blocks of the scopes, outermost first, separated by commas.
pub open spec fn scope_blocks(scopes: Seq<Seq<Binding>>, shown: Seq<Seq<Seq<char>>>) -> Seq<char>
    decreases scopes.len(),
{
    if scopes.len() == 0 {
        Seq::empty()
    } else if scopes.len() == 1 {
        scope_block(scopes[0], shown[0])
    } else {
        scope_blocks(scopes.drop_last(), shown) + ","@ + scope_block(scopes.last(), shown[scopes.len() - 1])
    }
}

/// The printed forms handed in for each binding of each scope.
pub open spec fn shown_texts(shown: Seq<Vec<String>>) -> Seq<Seq<Seq<char>>> {
    shown.map_values(|v: Vec<String>| texts_of(v@))
}

/// The report of one scope; `shown[j]` is the printed form of its `j`-th binding's value.
fn scope_report(bs: &Vec<Binding>, shown: &Vec<String>) -> (res: String)
    requires
        shown@.len() == bs@.len(),
    ensures
        res@ == scope_block(bs@, texts_of(shown@)),
{
    let mut res = String::from_str("{\n");
    let mut j: usize = 0;
    while j < bs.len()
        invariant
            j <= bs@.len(),
            shown@.len() == bs@.len(),
            res@ == "{\n"@ + binding_lines(bs@.take(j as int), texts_of(shown@)),
        decreases bs@.len() - j,
    {
        let b = &bs[j];
        res.append("\t\x1b[0;");
        if b.mutable {
            res.append("32");
        } else {
            res.append("31");
        }
        res.append("m");
        res.append(b.name.as_str());
        res.append(" => ");
        res.append(shown[j].as_str());
        res.append(" \x1b[0;34m(");
        let kind = b.value.get_type();
        res.append(kind.as_str());
        res.append(")\x1b[0m\n");
        proof {
            let t = bs@.take(j + 1);
            assert(t.drop_last() =~= bs@.take(j as int));
            assert(t.last() == bs@[j as int]);
            assert(texts_of(shown@)[j as int] == shown@[j as int]@);
            assert(res@ =~= "{\n"@ + binding_lines(t, texts_of(shown@)));
        }
        j = j + 1;
    }
    assert(bs@.take(bs@.len() as int) =~= bs@);
    res.append("}");
    res
}

impl Interpreter {
    /// `sys:breakpoint [name]`: pauses under the name given, or under
    /// `UNNAMED_BREAKPOINT` without one, and gives nil once resumed. While
    /// paused, the embedding program can show this interpreter's scopes.
    pub fn breakpoint(&mut self, args: &Vec<Value>) -> (res: Result<Value, Error>)
        ensures
            old(self).leads_to(final(self)),
            final(self).scopes == old(self).scopes,
            (result_model(res), final(self).machine()) == sem_breakpoint(
                old(self).answers(),
                old(self).machine(),
                vals_of(args@),
            ),
    {
        proof {
            lemma_vals_of(args@);
        }
        if args.len() == 1 {
            match &args[0] {
                Value::String(s) => {
                    let o = match self.ask(Request::Pause(s.clone())) {
                        Ok(o) => o,
                        Err(e) => {
                            return Err(e);
                        },
                    };
                    self.answer_done(o, Value::Nil)
                },
                _ => Err(Error::ExpectedString { found_type: args[0].get_type() }),
            }
        } else if args.len() == 0 {
            let o = match self.ask(Request::Pause(String::from_str("UNNAMED_BREAKPOINT"))) {
                Ok(o) => o,
                Err(e) => {
                    return Err(e);
                },
            };
            self.answer_done(o, Value::Nil)
        } else {
            Err(Error::ArgumentCount { min: 0, max: 1, found: args.len() })
        }
    }

    /// The report of this interpreter's scopes that a breakpoint shows,
    /// outermost first: each scope in braces, one line per binding in name
    /// order, and a closing newline. `shown[i][j]` is the printed form of the
    /// value of the `j`-th binding of scope `i`, which the embedding program
    /// makes because floats print there.
    pub fn print_scopes(&self, shown: &Vec<Vec<String>>) -> (res: String)
        requires
            shown@.len() == self.scopes@.len(),
            forall|i: int| 0 <= i < shown@.len() ==> (#[trigger] shown@[i])@.len() == self.scopes@[i].bindings_seq().len(),
        ensures
            res@ == scope_blocks(self.scopes@.map_values(|s: Scope| s.bindings_seq()), shown_texts(shown@)) + "\n"@,
    {
        let ghost all = self.scopes@.map_values(|s: Scope| s.bindings_seq());
        let ghost texts = shown_texts(shown@);
        let mut res = String::new();
        let mut i: usize = 0;
        while i < self.scopes.len()
            invariant
                i <= self.scopes@.len(),
                shown@.len() == self.scopes@.len(),
                forall|k: int| 0 <= k < shown@.len() ==> (#[trigger] shown@[k])@.len() == self.scopes@[k].bindings_seq().len(),
                all == self.scopes@.map_values(|s: Scope| s.bindings_seq()),
                texts == shown_texts(shown@),
                res@ == scope_blocks(all.take(i as int), texts),
            decreases self.scopes@.len() - i,
        {
            if i > 0 {
                res.append(",");
            }
            let bs = self.scopes[i].bindings();
            let block = scope_report(bs, &shown[i]);
            res.append(block.as_str());
            proof {
                let t = all.take(i + 1);
                assert(t.drop_last() =~= all.take(i as int));
                assert(t.last() == all[i as int]);
                assert(texts[i as int] == texts_of(shown@[i as int]@));
                if i == 0 {
                    assert(res@ =~= scope_blocks(t, texts));
                } else {
                    assert(res@ =~= scope_blocks(t, texts));
                }
            }
            i = i + 1;
        }
        assert(all.take(self.scopes@.len() as int) =~= all);
        res.append("\n");
        res
    }

    /// A call of a library function this evaluator does not hold: the
    /// embedding program runs it on the evaluated arguments.
    pub fn call_host(&mut self, name: &str, args: &Vec<Value>) -> (res: Result<Value, Error>)
        ensures
            old(self).leads_to(final(self)),
            final(self).scopes == old(self).scopes,
            (result_model(res), final(self).machine()) == sem_host_call(
                old(self).answers(),
                old(self).machine(),
                name@,
                vals_of(args@),
            ),
    {
        let o = match self.ask(Request::Call { name: name.to_owned(), args: duplicate_values(args) }) {
            Ok(o) => o,
            Err(e) => {
                return Err(e);
            },
        };
        self.answer_value(o)
    }
}

} // verus!
