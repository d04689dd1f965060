use vstd::prelude::*;
use crate::value::{Value, Val, vals_of, lemma_vals_of};
use crate::host::{Request, Outcome, Error, Entry, result_model, texts_of, paths_model, entries_of, text_of};
use crate::interpreter::Interpreter;
use crate::semantics::{ask, rewound, path_values, sem_exists, sem_read_dir, sem_read_file, sem_file_op, sem_write_file, sem_see_dir, sem_entries};

verus! {

/// The paths of a directory listing, as string values.
fn path_list(paths: Vec<String>) -> (res: Value)
    ensures
        res.model() == Val::List(path_values(texts_of(paths@))),
{
    let mut out: Vec<Value> = Vec::new();
    let mut i: usize = 0;
    while i < paths.len()
        invariant
            i <= paths@.len(),
            out@.len() == i,
            forall|j: int| 0 <= j < i ==> #[trigger] out@[j].model() == Val::Str(paths@[j]@),
        decreases paths@.len() - i,
    {
        out.push(Value::String(paths[i].clone()));
        i = i + 1;
    }
    proof {
        lemma_vals_of(out@);
        assert(vals_of(out@) =~= path_values(texts_of(paths@)));
    }
    Value::List(out)
}

impl Interpreter {
    /// `fs:exists?`: whether the path in the first argument exists; false
    /// when there is no argument or the first is not a string.
    pub fn exists_path(&mut self, args: &Vec<Value>) -> (res: Result<Value, Error>)
        ensures
            old(self).leads_to(final(self)),
            final(self).scopes == old(self).scopes,
            (result_model(res), final(self).machine()) == sem_exists(
                old(self).answers(),
                old(self).machine(),
                vals_of(args@),
            ),
    {
        proof {
            lemma_vals_of(args@);
        }
        if args.len() < 1 {
            Ok(Value::Bool(false))
        } else {
            match &args[0] {
                Value::String(s) => {
                    let o = match self.ask(Request::PathExists(s.clone())) {
                        Ok(o) => o,
                        Err(e) => {
                            return Err(e);
                        },
                    };
                    match o {
                        Outcome::Bool(b) => Ok(Value::Bool(b)),
                        _ => Err(Error::UnexpectedOutcome),
                    }
                },
                _ => Ok(Value::Bool(false)),
            }
        }
    }

    /// Asks whether `path` exists: `Ok(true)` or `Ok(false)` by the answer.
    fn ask_exists(&mut self, path: &String) -> (res: Result<bool, Error>)
        ensures
            old(self).leads_to(final(self)),
            final(self).scopes == old(self).scopes,
            ({
                let (o, m1) = ask(old(self).answers(), old(self).machine(), crate::host::Req::PathExists(path@));
                &&& final(self).machine() == m1
                &&& match res {
                    Ok(b) => o == Ok::<crate::host::Out, crate::host::Fault>(crate::host::Out::Bool(b)),
                    Err(e) => match o {
                        Ok(crate::host::Out::Bool(_)) => false,
                        Ok(_) => e.model() == crate::host::Fault::UnexpectedOutcome,
                        Err(f) => e.model() == f,
                    },
                }
            }),
    {
        match self.ask(Request::PathExists(path.clone())) {
            Ok(Outcome::Bool(b)) => Ok(b),
            Ok(_) => Err(Error::UnexpectedOutcome),
            Err(e) => Err(e),
        }
    }

    /// `fs:readDir path`: every path below the directory, depth first; an
    /// empty list when the path does not exist.
    pub fn read_dir(&mut self, args: &Vec<Value>) -> (res: Result<Value, Error>)
        ensures
            old(self).leads_to(final(self)),
            final(self).scopes == old(self).scopes,
            (result_model(res), final(self).machine()) == sem_read_dir(
                old(self).answers(),
                old(self).machine(),
                vals_of(args@),
            ),
    {
        proof {
            lemma_vals_of(args@);
        }
        if args.len() != 1 {
            return Err(Error::ArgumentCount { min: 1, max: 1, found: args.len() });
        }
        match &args[0] {
            Value::String(s) => {
                let found = match self.ask_exists(s) {
                    Ok(b) => b,
                    Err(e) => {
                        return Err(e);
                    },
                };
                if !found {
                    return Ok(Value::List(Vec::new()));
                }
                match self.see_dir(s.as_str()) {
                    Ok(ps) => Ok(path_list(ps)),
                    Err(e) => Err(e),
                }
            },
            _ => Err(Error::ExpectedString { found_type: args[0].get_type() }),
        }
    }

    /// Every path below the directory `path`, depth first, each directory
    /// just before its contents; the first failure stops the walk.
    pub fn see_dir(&mut self, path: &str) -> (res: Result<Vec<String>, Error>)
        ensures
            old(self).leads_to(final(self)),
            final(self).scopes == old(self).scopes,
            (paths_model(res), final(self).machine()) == sem_see_dir(
                old(self).answers(),
                old(self).machine(),
                path@,
            ),
        decreases old(self).unread(), 0nat, 0nat,
    {
        let o = match self.ask(Request::ListEntries(path.to_owned())) {
            Ok(o) => o,
            Err(e) => {
                return Err(e);
            },
        };
        match o {
            Outcome::Entries { entries, failure } => self.walk_entries(&entries, &failure),
            Outcome::Failed(msg) => Err(Error::Host(msg)),
            _ => Err(Error::UnexpectedOutcome),
        }
    }

    /// The paths below a directory whose entries are `entries`, listed
    /// until `failure`, if that is set.
    fn walk_entries(&mut self, entries: &Vec<Entry>, failure: &Option<String>) -> (res: Result<Vec<String>, Error>)
        ensures
            old(self).leads_to(final(self)),
            final(self).scopes == old(self).scopes,
            (paths_model(res), final(self).machine()) == sem_entries(
                old(self).answers(),
                old(self).machine(),
                entries_of(entries@),
                text_of(*failure),
                0,
                Seq::empty(),
            ),
        decreases old(self).unread(), 1nat, 0nat,
    {
        let ghost tape = self.answers();
        let ghost m0 = self.machine();
        let ghost es = entries_of(entries@);
        let mut acc: Vec<String> = Vec::new();
        assert(texts_of(acc@) =~= Seq::empty());
        let mut i: usize = 0;
        while i < entries.len()
            invariant
                i <= entries@.len(),
                es == entries_of(entries@),
                tape == self.answers(),
                tape == old(self).answers(),
                m0 == old(self).machine(),
                old(self).leads_to(self),
                self.scopes == old(self).scopes,
                self.unread() <= old(self).unread(),
                sem_entries(tape, m0, es, text_of(*failure), 0, Seq::empty()) == sem_entries(
                    tape,
                    self.machine(),
                    es,
                    text_of(*failure),
                    i as int,
                    texts_of(acc@),
                ),
            decreases entries@.len() - i,
        {
            let e = &entries[i];
            let ghost before = self.machine();
            let ghost old_acc = acc@;
            acc.push(e.path.clone());
            if e.is_dir {
                let below = self.see_dir(e.path.as_str());
                match below {
                    Err(err) => {
                        return Err(err);
                    },
                    Ok(mut below) => {
                        let ghost b = below@;
                        acc.append(&mut below);
                        assert(!rewound(tape, before, self.machine()));
                        assert(texts_of(acc@) =~= texts_of(old_acc).push(e.path@) + texts_of(b));
                    },
                }
            } else {
                assert(texts_of(acc@) =~= texts_of(old_acc).push(e.path@));
            }
            i = i + 1;
        }
        match failure {
            Some(msg) => Err(Error::Host(msg.clone())),
            None => Ok(acc),
        }
    }

    /// `fs:readFile path`: the text of the file; the empty string when the
    /// path does not exist.
    pub fn read_file(&mut self, args: &Vec<Value>) -> (res: Result<Value, Error>)
        ensures
            old(self).leads_to(final(self)),
            final(self).scopes == old(self).scopes,
            (result_model(res), final(self).machine()) == sem_read_file(
                old(self).answers(),
                old(self).machine(),
                vals_of(args@),
            ),
    {
        proof {
            lemma_vals_of(args@);
        }
        if args.len() != 1 {
            return Err(Error::ArgumentCount { min: 1, max: 1, found: args.len() });
        }
        match &args[0] {
            Value::String(s) => {
                let found = match self.ask_exists(s) {
                    Ok(b) => b,
                    Err(e) => {
                        return Err(e);
                    },
                };
                if !found {
                    return Ok(Value::String(String::new()));
                }
                let o = match self.ask(Request::ReadFile(s.clone())) {
                    Ok(o) => o,
                    Err(e) => {
                        return Err(e);
                    },
                };
                match o {
                    Outcome::Text(t) => Ok(Value::String(t)),
                    Outcome::Failed(msg) => Err(Error::Host(msg)),
                    _ => Err(Error::UnexpectedOutcome),
                }
            },
            _ => Err(Error::ExpectedString { found_type: args[0].get_type() }),
        }
    }

    /// `fs:createFile path`: nil once the file is created (or emptied).
    pub fn create_file(&mut self, args: &Vec<Value>) -> (res: Result<Value, Error>)
        ensures
            old(self).leads_to(final(self)),
            final(self).scopes == old(self).scopes,
            (result_model(res), final(self).machine()) == sem_file_op(
                old(self).answers(),
                old(self).machine(),
                vals_of(args@),
                false,
            ),
    {
        self.file_op(args, false)
    }

    /// `fs:removeFile path`: nil once the file is removed.
    pub fn remove_file(&mut self, args: &Vec<Value>) -> (res: Result<Value, Error>)
        ensures
            old(self).leads_to(final(self)),
            final(self).scopes == old(self).scopes,
            (result_model(res), final(self).machine()) == sem_file_op(
                old(self).answers(),
                old(self).machine(),
                vals_of(args@),
                true,
            ),
    {
        self.file_op(args, true)
    }

    fn file_op(&mut self, args: &Vec<Value>, remove: bool) -> (res: Result<Value, Error>)
        ensures
            old(self).leads_to(final(self)),
            final(self).scopes == old(self).scopes,
            (result_model(res), final(self).machine()) == sem_file_op(
                old(self).answers(),
                old(self).machine(),
                vals_of(args@),
                remove,
            ),
    {
        proof {
            lemma_vals_of(args@);
        }
        if args.len() != 1 {
            return Err(Error::ArgumentCount { min: 1, max: 1, found: args.len() });
        }
        match &args[0] {
            Value::String(s) => {
                let r = if remove {
                    Request::RemoveFile(s.clone())
                } else {
                    Request::CreateFile(s.clone())
                };
                let o = match self.ask(r) {
                    Ok(o) => o,
                    Err(e) => {
                        return Err(e);
                    },
                };
                self.answer_done(o, Value::Nil)
            },
            _ => Err(Error::ExpectedString { found_type: args[0].get_type() }),
        }
    }

    /// `fs:writeFile path mode content`: false when the path does not exist;
    /// otherwise the printed content goes into the file, at its end when the
    /// mode is `"a"`, and the result is true.
    pub fn write_file(&mut self, args: &Vec<Value>) -> (res: Result<Value, Error>)
        ensures
            old(self).leads_to(final(self)),
            final(self).scopes == old(self).scopes,
            (result_model(res), final(self).machine()) == sem_write_file(
                old(self).answers(),
                old(self).machine(),
                vals_of(args@),
            ),
    {
        proof {
            lemma_vals_of(args@);
        }
        if args.len() != 3 {
            return Err(Error::ArgumentCount { min: 3, max: 3, found: args.len() });
        }
        match &args[0] {
            Value::String(s) => {
                let found = match self.ask_exists(s) {
                    Ok(b) => b,
                    Err(e) => {
                        return Err(e);
                    },
                };
                if !found {
                    return Ok(Value::Bool(false));
                }
                match &args[1] {
                    Value::String(mode) => {
                        let append = crate::scope::same_name(mode.as_str(), "a");
                        let o = match self.ask(
                            Request::WriteFile { path: s.clone(), append, content: args[2].duplicate() },
                        ) {
                            Ok(o) => o,
                            Err(e) => {
                                return Err(e);
                            },
                        };
                        self.answer_done(o, Value::Bool(true))
                    },
                    _ => Err(Error::ExpectedString { found_type: args[0].get_type() }),
                }
            },
            _ => Err(Error::ExpectedString { found_type: args[0].get_type() }),
        }
    }
}

} // verus!
