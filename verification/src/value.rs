use vstd::prelude::*;

verus! {

broadcast use vstd::std_specs::vec::axiom_vec_decreases_to_view;

/// A runtime value of the language.
///
/// Floating-point numbers are carried as their IEEE-754 bit pattern: the
/// evaluator never computes with them, it only moves them around.
#[derive(Debug, PartialEq)]
pub enum Value {
    Nil,
    Bool(bool),
    Int(i32),
    Float(u32),
    String(String),
    List(Vec<Value>),
}

/// The mathematical model of a [`Value`].
pub enum Val {
    Nil,
    Bool(bool),
    Int(i32),
    Float(u32),
    Str(Seq<char>),
    List(Seq<Val>),
}

/// The models of a sequence of values, element by element.
pub open spec fn vals_of(s: Seq<Value>) -> Seq<Val>
    decreases s,
{
    if s.len() == 0 {
        Seq::empty()
    } else {
        seq![s[0].model()] + vals_of(s.drop_first())
    }
}

/// The model of a sequence of values has its length and holds each model in place.
pub proof fn lemma_vals_of(s: Seq<Value>)
    ensures
        vals_of(s).len() == s.len(),
        forall|i: int| 0 <= i < s.len() ==> #[trigger] vals_of(s)[i] == s[i].model(),
    decreases s.len(),
{
    if s.len() > 0 {
        lemma_vals_of(s.drop_first());
        assert forall|i: int| 0 <= i < s.len() implies #[trigger] vals_of(s)[i] == s[i].model() by {
            if i > 0 {
                assert(s.drop_first()[i - 1] == s[i]);
            }
        }
    }
}

/// Appending a value appends its model.
pub proof fn lemma_vals_of_push(s: Seq<Value>, v: Value)
    ensures
        vals_of(s.push(v)) == vals_of(s).push(v.model()),
{
    lemma_vals_of(s);
    lemma_vals_of(s.push(v));
    assert(vals_of(s.push(v)) =~= vals_of(s).push(v.model()));
}

/// The name of the type of a value, as `typeof` reports it.
pub open spec fn kind_name(v: Val) -> Seq<char> {
    match v {
        Val::Nil => "nil"@,
        Val::Bool(_) => "bool"@,
        Val::Int(_) => "int"@,
        Val::Float(_) => "float"@,
        Val::Str(_) => "string"@,
        Val::List(_) => "list"@,
    }
}

impl Value {
    pub open spec fn model(self) -> Val
        decreases self,
    {
        match self {
            Value::Nil => Val::Nil,
            Value::Bool(b) => Val::Bool(b),
            Value::Int(i) => Val::Int(i),
            Value::Float(f) => Val::Float(f),
            Value::String(s) => Val::Str(s@),
            Value::List(v) => Val::List(vals_of(v@)),
        }
    }

    /// A copy of this value, element by element.
    pub fn duplicate(&self) -> (res: Value)
        ensures
            res.model() == self.model(),
        decreases self,
    {
        match self {
            Value::Nil => Value::Nil,
            Value::Bool(b) => Value::Bool(*b),
            Value::Int(i) => Value::Int(*i),
            Value::Float(f) => Value::Float(*f),
            Value::String(s) => Value::String(s.clone()),
            Value::List(v) => Value::List(duplicate_values(v)),
        }
    }

    /// The name of this value's type.
    pub fn get_type(&self) -> (res: String)
        ensures
            res@ == kind_name(self.model()),
    {
        match self {
            Value::Nil => String::from_str("nil"),
            Value::Bool(_) => String::from_str("bool"),
            Value::Int(_) => String::from_str("int"),
            Value::Float(_) => String::from_str("float"),
            Value::String(_) => String::from_str("string"),
            Value::List(_) => String::from_str("list"),
        }
    }
}

impl Clone for Value {
    /// A copy of this value, element by element.
    fn clone(&self) -> (res: Value)
        ensures
            res.model() == self.model(),
    {
        self.duplicate()
    }
}

/// A copy of a list of values, element by element.
pub fn duplicate_values(v: &Vec<Value>) -> (res: Vec<Value>)
    ensures
        vals_of(res@) == vals_of(v@),
    decreases v,
{
    let mut res: Vec<Value> = Vec::new();
    let mut i: usize = 0;
    while i < v.len()
        invariant
            i <= v.len(),
            res@.len() == i,
            forall|j: int| 0 <= j < i ==> #[trigger] res@[j].model() == v@[j].model(),
        decreases v.len() - i,
    {
        assert(decreases_to!(v => v@[i as int]));
        let x = v[i].duplicate();
        res.push(x);
        i = i + 1;
    }
    proof {
        lemma_vals_of(res@);
        lemma_vals_of(v@);
        assert(vals_of(res@) =~= vals_of(v@));
    }
    res
}

} // verus!
