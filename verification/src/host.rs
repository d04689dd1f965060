use vstd::prelude::*;
use crate::value::{Value, Val, vals_of};
use crate::node::{Node, Tree};

verus! {

/// Outside work that evaluation needs done: the embedding program performs it
/// and answers with an [`Outcome`].
#[derive(Debug, PartialEq)]
pub enum Request {
    /// Does a file or directory exist at this path?
    PathExists(String),
    /// The entries of this directory, in the order the file system lists them.
    ListEntries(String),
    /// The whole content of this file, as text.
    ReadFile(String),
    /// Create this file, or empty it if it exists.
    CreateFile(String),
    /// Remove this file.
    RemoveFile(String),
    /// Write the printed form of `content` to the existing file at `path`,
    /// at its end when `append` holds, else from its start.
    WriteFile { path: String, append: bool, content: Value },
    /// Stop at a breakpoint of this name until the user resumes.
    Pause(String),
    /// Read, scan and parse the program in this file.
    Load(String),
    /// Run a function of the standard library that this evaluator does not hold.
    Call { name: String, args: Vec<Value> },
    /// Convert a value to the named type.
    Convert { target: String, value: Value },
}

/// The embedding program's answer to a [`Request`].
#[derive(Debug, PartialEq)]
pub enum Outcome {
    Done,
    Bool(bool),
    Text(String),
    /// The entries listed before the listing stopped, and the failure that
    /// stopped it, if one did.
    Entries { entries: Vec<Entry>, failure: Option<String> },
    Program(Node),
    Value(Value),
    Failed(String),
}

/// The model of a [`Request`].
pub enum Req {
    PathExists(Seq<char>),
    ListEntries(Seq<char>),
    ReadFile(Seq<char>),
    CreateFile(Seq<char>),
    RemoveFile(Seq<char>),
    WriteFile { path: Seq<char>, append: bool, content: Val },
    Pause(Seq<char>),
    Load(Seq<char>),
    Call { name: Seq<char>, args: Seq<Val> },
    Convert { target: Seq<char>, value: Val },
}

/// The model of an [`Outcome`].
pub enum Out {
    Done,
    Bool(bool),
    Text(Seq<char>),
    Entries { entries: Seq<(Seq<char>, bool)>, failure: Option<Seq<char>> },
    Program(Tree),
    Value(Val),
    Failed(Seq<char>),
}

/// One entry of a directory: its full path, and whether it is a directory.
#[derive(Debug, PartialEq)]
pub struct Entry {
    pub path: String,
    pub is_dir: bool,
}

/// The models of directory entries.
pub open spec fn entries_of(s: Seq<Entry>) -> Seq<(Seq<char>, bool)> {
    s.map_values(|e: Entry| (e.path@, e.is_dir))
}

/// The text of an optional string.
pub open spec fn text_of(s: Option<String>) -> Option<Seq<char>> {
    match s {
        Some(t) => Some(t@),
        None => None,
    }
}

/// A copy of a list of directory entries.
pub fn duplicate_entries(v: &Vec<Entry>) -> (res: Vec<Entry>)
    ensures
        entries_of(res@) == entries_of(v@),
{
    let mut res: Vec<Entry> = Vec::new();
    let mut i: usize = 0;
    while i < v.len()
        invariant
            i <= v.len(),
            res@.len() == i,
            forall|j: int| 0 <= j < i ==> #[trigger] res@[j].path@ == v@[j].path@ && res@[j].is_dir == v@[j].is_dir,
        decreases v.len() - i,
    {
        res.push(Entry { path: v[i].path.clone(), is_dir: v[i].is_dir });
        i = i + 1;
    }
    assert(entries_of(res@) =~= entries_of(v@));
    res
}

/// The texts of a sequence of strings.
pub open spec fn texts_of(s: Seq<String>) -> Seq<Seq<char>> {
    s.map_values(|x: String| x@)
}

impl Request {
    pub open spec fn model(self) -> Req {
        match self {
            Request::PathExists(s) => Req::PathExists(s@),
            Request::ListEntries(s) => Req::ListEntries(s@),
            Request::ReadFile(s) => Req::ReadFile(s@),
            Request::CreateFile(s) => Req::CreateFile(s@),
            Request::RemoveFile(s) => Req::RemoveFile(s@),
            Request::WriteFile { path, append, content } => Req::WriteFile {
                path: path@,
                append,
                content: content.model(),
            },
            Request::Pause(s) => Req::Pause(s@),
            Request::Load(s) => Req::Load(s@),
            Request::Call { name, args } => Req::Call { name: name@, args: vals_of(args@) },
            Request::Convert { target, value } => Req::Convert {
                target: target@,
                value: value.model(),
            },
        }
    }
}

impl Outcome {
    pub open spec fn model(self) -> Out {
        match self {
            Outcome::Done => Out::Done,
            Outcome::Bool(b) => Out::Bool(b),
            Outcome::Text(s) => Out::Text(s@),
            Outcome::Entries { entries, failure } => Out::Entries {
                entries: entries_of(entries@),
                failure: text_of(failure),
            },
            Outcome::Program(n) => Out::Program(n.model()),
            Outcome::Value(v) => Out::Value(v.model()),
            Outcome::Failed(s) => Out::Failed(s@),
        }
    }

    /// A copy of this outcome.
    pub fn duplicate(&self) -> (res: Outcome)
        ensures
            res.model() == self.model(),
    {
        match self {
            Outcome::Done => Outcome::Done,
            Outcome::Bool(b) => Outcome::Bool(*b),
            Outcome::Text(s) => Outcome::Text(s.clone()),
            Outcome::Entries { entries, failure } => Outcome::Entries {
                entries: duplicate_entries(entries),
                failure: match failure {
                    Some(f) => Some(f.clone()),
                    None => None,
                },
            },
            Outcome::Program(n) => Outcome::Program(n.duplicate()),
            Outcome::Value(v) => Outcome::Value(v.duplicate()),
            Outcome::Failed(s) => Outcome::Failed(s.clone()),
        }
    }
}

/// The models of a sequence of outcomes.
pub open spec fn outs_of(s: Seq<Outcome>) -> Seq<Out> {
    s.map_values(|o: Outcome| o.model())
}

/// Why evaluation stopped short of a value.
#[derive(Debug, PartialEq)]
pub enum Error {
    /// No scope binds this name.
    Unbound(String),
    /// A statement of a body is not a call.
    NotACall,
    /// A builtin got a number of arguments outside `min..=max`.
    ArgumentCount { min: usize, max: usize, found: usize },
    /// A builtin wanted a string and got a value of the type named.
    ExpectedString { found_type: String },
    /// `import` named a file that does not exist.
    MissingFile(String),
    /// The embedding program reported a failure with this message.
    Host(String),
    /// An `assert` saw something other than `true`. This error ends the
    /// program: the embedding program stops with "Assertion failed." and
    /// does not go on (see [`Error::ends_program`]).
    AssertionFailed,
    /// This evaluator does not hold the named special form.
    Unsupported(String),
    /// The answer on the tape does not fit the request it answers.
    UnexpectedOutcome,
    /// The tape is used up: this request waits for an answer.
    Suspended(Request),
}

impl Error {
    /// Whether this error ends the program outright, whoever evaluated it:
    /// only a failed assertion does.
    pub fn ends_program(&self) -> (res: bool)
        ensures
            res == (self.model() == Fault::AssertionFailed),
    {
        match self {
            Error::AssertionFailed => true,
            _ => false,
        }
    }
}

/// The model of an [`Error`].
pub enum Fault {
    Unbound(Seq<char>),
    NotACall,
    ArgumentCount { min: nat, max: nat, found: nat },
    ExpectedString { found_type: Seq<char> },
    MissingFile(Seq<char>),
    Host(Seq<char>),
    AssertionFailed,
    Unsupported(Seq<char>),
    UnexpectedOutcome,
    Suspended(Req),
}

impl Error {
    pub open spec fn model(self) -> Fault {
        match self {
            Error::Unbound(s) => Fault::Unbound(s@),
            Error::NotACall => Fault::NotACall,
            Error::ArgumentCount { min, max, found } => Fault::ArgumentCount {
                min: min as nat,
                max: max as nat,
                found: found as nat,
            },
            Error::ExpectedString { found_type } => Fault::ExpectedString { found_type: found_type@ },
            Error::MissingFile(s) => Fault::MissingFile(s@),
            Error::Host(s) => Fault::Host(s@),
            Error::AssertionFailed => Fault::AssertionFailed,
            Error::Unsupported(s) => Fault::Unsupported(s@),
            Error::UnexpectedOutcome => Fault::UnexpectedOutcome,
            Error::Suspended(r) => Fault::Suspended(r.model()),
        }
    }
}

/// The model of a list of paths, or of why it could not be made.
pub open spec fn paths_model(r: Result<Vec<String>, Error>) -> Result<Seq<Seq<char>>, Fault> {
    match r {
        Ok(v) => Ok(texts_of(v@)),
        Err(e) => Err(e.model()),
    }
}

/// The model of what an evaluation step gives back.
pub open spec fn result_model(r: Result<Value, Error>) -> Result<Val, Fault> {
    match r {
        Ok(v) => Ok(v.model()),
        Err(e) => Err(e.model()),
    }
}

} // verus!
