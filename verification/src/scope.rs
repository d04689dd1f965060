use vstd::prelude::*;
use crate::value::{Val, Value};

verus! {

/// Strict lexicographic order on names, character by character by code point:
/// the order in which a scope keeps and lists its bindings.
pub open spec fn name_lt(a: Seq<char>, b: Seq<char>) -> bool {
    exists|i: int| #[trigger] first_difference(a, b, i) && name_lt_at(a, b, i)
}

/// `a` and `b` agree on every position before `i`, and `i` lies within both.
pub open spec fn first_difference(a: Seq<char>, b: Seq<char>, i: int) -> bool {
    &&& 0 <= i <= a.len()
    &&& i <= b.len()
    &&& forall|j: int| 0 <= j < i ==> #[trigger] a[j] == b[j]
}

/// At the first position where they part, `a` is the smaller one.
pub open spec fn name_lt_at(a: Seq<char>, b: Seq<char>, i: int) -> bool {
    ||| (i == a.len() && i < b.len())
    ||| (i < a.len() && i < b.len() && (a[i] as int) < (b[i] as int))
}

/// Two names are ordered one way, the other way, or are the same name.
pub proof fn lemma_name_trichotomy(a: Seq<char>, b: Seq<char>)
    ensures
        a == b || name_lt(a, b) || name_lt(b, a),
        !(name_lt(a, b) && name_lt(b, a)),
        !name_lt(a, a),
{
    lemma_name_split(a, b, 0);
    if name_lt(a, b) && name_lt(b, a) {
        let p = choose|p: int| #[trigger] first_difference(a, b, p) && name_lt_at(a, b, p);
        let q = choose|q: int| #[trigger] first_difference(b, a, q) && name_lt_at(b, a, q);
        if p < q {
            assert(a[p] == b[p]);
        } else if q < p {
            assert(b[q] == a[q]);
        }
    }
    if name_lt(a, a) {
        let p = choose|p: int| #[trigger] first_difference(a, a, p) && name_lt_at(a, a, p);
    }
}

proof fn lemma_name_split(a: Seq<char>, b: Seq<char>, i: int)
    requires
        first_difference(a, b, i),
    ensures
        a == b || name_lt(a, b) || name_lt(b, a),
    decreases a.len() - i,
{
    if i < a.len() && i < b.len() && a[i] == b[i] {
        lemma_name_split(a, b, i + 1);
    } else if i == a.len() && i == b.len() {
        assert(a =~= b);
    } else if i == a.len() {
        assert(first_difference(a, b, i) && name_lt_at(a, b, i));
    } else if i == b.len() {
        assert(first_difference(b, a, i) && name_lt_at(b, a, i));
    } else if (a[i] as int) < (b[i] as int) {
        assert(first_difference(a, b, i) && name_lt_at(a, b, i));
    } else {
        assert((a[i] as int) != (b[i] as int));
        assert(first_difference(b, a, i) && name_lt_at(b, a, i));
    }
}

/// The order on names is transitive.
pub proof fn lemma_name_transitive(a: Seq<char>, b: Seq<char>, c: Seq<char>)
    requires
        name_lt(a, b),
        name_lt(b, c),
    ensures
        name_lt(a, c),
{
    let p = choose|p: int| #[trigger] first_difference(a, b, p) && name_lt_at(a, b, p);
    let q = choose|q: int| #[trigger] first_difference(b, c, q) && name_lt_at(b, c, q);
    if p < q {
        assert(first_difference(a, c, p) && name_lt_at(a, c, p));
    } else if q < p {
        assert(first_difference(a, c, q) && name_lt_at(a, c, q));
    } else {
        assert(first_difference(a, c, p) && name_lt_at(a, c, p));
    }
}

/// Which of two names comes first.
#[derive(Debug, PartialEq)]
pub enum NameOrder {
    Before,
    Same,
    After,
}

/// Compares two names in the order of [`name_lt`].
pub fn compare_names(a: &str, b: &str) -> (res: NameOrder)
    ensures
        res is Before <==> name_lt(a@, b@),
        res is Same <==> a@ == b@,
        res is After <==> name_lt(b@, a@),
{
    let la = a.unicode_len();
    let lb = b.unicode_len();
    let mut i: usize = 0;
    while i < la && i < lb
        invariant
            la == a@.len(),
            lb == b@.len(),
            first_difference(a@, b@, i as int),
        decreases la - i,
    {
        let ca = a.get_char(i);
        let cb = b.get_char(i);
        if (ca as u32) < (cb as u32) {
            proof {
                assert(first_difference(a@, b@, i as int) && name_lt_at(a@, b@, i as int));
                lemma_name_trichotomy(a@, b@);
            }
            return NameOrder::Before;
        }
        if (cb as u32) < (ca as u32) {
            proof {
                assert(first_difference(b@, a@, i as int) && name_lt_at(b@, a@, i as int));
                lemma_name_trichotomy(a@, b@);
            }
            return NameOrder::After;
        }
        proof {
            assert(ca == cb) by {
                assert((ca as u32) == (cb as u32));
            }
        }
        i = i + 1;
    }
    proof {
        lemma_name_trichotomy(a@, b@);
    }
    if la < lb {
        assert(first_difference(a@, b@, i as int) && name_lt_at(a@, b@, i as int));
        NameOrder::Before
    } else if lb < la {
        assert(first_difference(b@, a@, i as int) && name_lt_at(b@, a@, i as int));
        NameOrder::After
    } else {
        assert(a@ =~= b@);
        NameOrder::Same
    }
}

/// Whether two names are the same name.
pub fn same_name(a: &str, b: &str) -> (res: bool)
    ensures
        res == (a@ == b@),
{
    match compare_names(a, b) {
        NameOrder::Same => true,
        _ => false,
    }
}

/// One name bound in a scope: its value and whether it may be reassigned.
#[derive(Debug, PartialEq)]
pub struct Binding {
    pub name: String,
    pub value: Value,
    pub mutable: bool,
}

impl Binding {
    /// What a scope records under this binding's name.
    pub open spec fn entry(self) -> (Val, bool) {
        (self.value.model(), self.mutable)
    }
}

/// Every name in the sequence comes strictly before the names after it.
pub open spec fn names_ascending(s: Seq<Binding>) -> bool {
    forall|i: int, j: int| 0 <= i < j < s.len() ==> name_lt(#[trigger] s[i].name@, #[trigger] s[j].name@)
}

/// The map from names to entries that a sequence of bindings stands for.
pub open spec fn map_of(s: Seq<Binding>) -> Map<Seq<char>, (Val, bool)>
    decreases s.len(),
{
    if s.len() == 0 {
        Map::empty()
    } else {
        map_of(s.drop_last()).insert(s.last().name@, s.last().entry())
    }
}

/// In a sequence with ascending names, the map holds exactly the names of the
/// sequence, each with the entry of its binding.
pub proof fn lemma_map_of(s: Seq<Binding>)
    requires
        names_ascending(s),
    ensures
        forall|k: Seq<char>| #[trigger] map_of(s).contains_key(k) <==> exists|i: int| 0 <= i < s.len() && s[i].name@ == k,
        forall|i: int| 0 <= i < s.len() ==> #[trigger] map_of(s)[s[i].name@] == s[i].entry(),
    decreases s.len(),
{
    if s.len() > 0 {
        let t = s.drop_last();
        assert(names_ascending(t));
        lemma_map_of(t);
        assert(map_of(s) == map_of(t).insert(s.last().name@, s.last().entry()));
        assert forall|k: Seq<char>| #[trigger] map_of(s).contains_key(k) <==> exists|i: int| 0 <= i < s.len() && s[i].name@ == k by {
            if map_of(s).contains_key(k) && k != s.last().name@ {
                assert(map_of(t).contains_key(k));
                let i = choose|i: int| 0 <= i < t.len() && t[i].name@ == k;
                assert(s[i].name@ == k);
            }
            if exists|i: int| 0 <= i < s.len() && s[i].name@ == k {
                let i = choose|i: int| 0 <= i < s.len() && s[i].name@ == k;
                if i < s.len() - 1 {
                    assert(t[i].name@ == k);
                }
            }
        }
        assert forall|i: int| 0 <= i < s.len() implies #[trigger] map_of(s)[s[i].name@] == s[i].entry() by {
            if i < s.len() - 1 {
                assert(name_lt(s[i].name@, s[s.len() - 1].name@));
                lemma_name_trichotomy(s[i].name@, s[s.len() - 1].name@);
                assert(t[i] == s[i]);
            }
        }
    }
}

/// A lexical scope: a finite map from names to bindings, kept in name order.
#[derive(Debug, PartialEq)]
pub struct Scope {
    entries: Vec<Binding>,
}

impl Scope {
    #[verifier::type_invariant]
    spec fn ordered(self) -> bool {
        names_ascending(self.entries@)
    }

    /// The bindings of this scope, in name order.
    pub closed spec fn bindings_seq(self) -> Seq<Binding> {
        self.entries@
    }

    /// An empty scope.
    pub fn new() -> (res: Scope)
        ensures
            res@ == Map::<Seq<char>, (Val, bool)>::empty(),
    {
        Scope { entries: Vec::new() }
    }

    /// The bindings of this scope, in ascending name order, one per name.
    pub fn bindings(&self) -> (res: &Vec<Binding>)
        ensures
            res@ == self.bindings_seq(),
            names_ascending(res@),
            map_of(res@) == self@,
    {
        proof {
            use_type_invariant(self);
        }
        &self.entries
    }

    /// Where `name` stands in the entries, if it is bound.
    fn position(&self, name: &str) -> (res: Result<usize, usize>)
        ensures
            match res {
                Ok(i) => i < self.entries@.len() && self.entries@[i as int].name@ == name@,
                Err(i) => i <= self.entries@.len() && (forall|j: int|
                    0 <= j < i ==> name_lt(#[trigger] self.entries@[j].name@, name@)) && (forall|j: int|
                    i <= j < self.entries@.len() ==> name_lt(name@, #[trigger] self.entries@[j].name@)),
            },
    {
        proof {
            use_type_invariant(self);
        }
        let mut i: usize = 0;
        while i < self.entries.len()
            invariant
                i <= self.entries@.len(),
                names_ascending(self.entries@),
                forall|j: int| 0 <= j < i ==> name_lt(#[trigger] self.entries@[j].name@, name@),
            decreases self.entries@.len() - i,
        {
            match compare_names(self.entries[i].name.as_str(), name) {
                NameOrder::Before => {},
                NameOrder::Same => {
                    return Ok(i);
                },
                NameOrder::After => {
                    proof {
                        assert forall|j: int| i <= j < self.entries@.len() implies name_lt(name@, #[trigger] self.entries@[j].name@) by {
                            if j > i {
                                lemma_name_transitive(name@, self.entries@[i as int].name@, self.entries@[j].name@);
                            }
                        }
                    }
                    return Err(i);
                },
            }
            i = i + 1;
        }
        Err(i)
    }

    /// The binding of `name`, if there is one.
    pub fn get(&self, name: &str) -> (res: Option<&Binding>)
        ensures
            match res {
                Some(b) => self@.contains_key(name@) && b.name@ == name@ && b.entry() == self@[name@],
                None => !self@.contains_key(name@),
            },
    {
        proof {
            use_type_invariant(self);
            lemma_map_of(self.entries@);
        }
        match self.position(name) {
            Ok(i) => Some(&self.entries[i]),
            Err(i) => {
                proof {
                    if self@.contains_key(name@) {
                        let j = choose|j: int| 0 <= j < self.entries@.len() && self.entries@[j].name@ == name@;
                        lemma_name_trichotomy(name@, name@);
                    }
                }
                None
            },
        }
    }

    /// Whether `name` is bound in this scope.
    pub fn contains_key(&self, name: &str) -> (res: bool)
        ensures
            res == self@.contains_key(name@),
    {
        self.get(name).is_some()
    }

    /// Binds `name` to `value`, replacing any binding it had.
    pub fn insert(&mut self, name: String, value: Value, mutable: bool)
        ensures
            final(self)@ == old(self)@.insert(name@, (value.model(), mutable)),
    {
        proof {
            use_type_invariant(&*self);
            lemma_map_of(self.entries@);
        }
        let pos = self.position(name.as_str());
        let mut entries: Vec<Binding> = Vec::new();
        std::mem::swap(&mut entries, &mut self.entries);
        let ghost before = entries@;
        let binding = Binding { name, value, mutable };
        match pos {
            Ok(i) => {
                entries.set(i, binding);
            },
            Err(i) => {
                entries.insert(i, binding);
            },
        }
        proof {
            let after = entries@;
            assert(names_ascending(after)) by {
                assert forall|a: int, b: int| 0 <= a < b < after.len() implies name_lt(#[trigger] after[a].name@, #[trigger] after[b].name@) by {
                    match pos {
                        Ok(i) => {},
                        Err(i) => {
                            if a < i && b > i {
                                assert(after[b] == before[b - 1]);
                            } else if a > i {
                                assert(after[a] == before[a - 1]);
                                assert(after[b] == before[b - 1]);
                            } else if b > i {
                                assert(after[b] == before[b - 1]);
                            }
                        },
                    }
                }
            }
            lemma_map_of(after);
            let ix: int = match pos { Ok(i) => i as int, Err(i) => i as int };
            assert(after[ix].name@ == name@);
            assert forall|k: Seq<char>| #[trigger] map_of(after).contains_key(k) <==> map_of(before).insert(name@, (value.model(), mutable)).contains_key(k) by {
                if k == name@ {
                    assert(0 <= ix < after.len() && after[ix].name@ == k);
                }
                if exists|j: int| 0 <= j < before.len() && before[j].name@ == k {
                    let j = choose|j: int| 0 <= j < before.len() && before[j].name@ == k;
                    match pos {
                        Ok(i) => {
                            if j != i {
                                assert(after[j] == before[j]);
                            }
                        },
                        Err(i) => {
                            if j < i {
                                assert(after[j] == before[j]);
                            } else {
                                assert(after[j + 1] == before[j]);
                            }
                        },
                    }
                }
                if exists|j: int| 0 <= j < after.len() && after[j].name@ == k {
                    let j = choose|j: int| 0 <= j < after.len() && after[j].name@ == k;
                    match pos {
                        Ok(i) => {
                            if j != i {
                                assert(before[j] == after[j]);
                            }
                        },
                        Err(i) => {
                            if j < i {
                                assert(before[j] == after[j]);
                            } else if j > i {
                                assert(before[j - 1] == after[j]);
                            }
                        },
                    }
                }
            }
            assert forall|k: Seq<char>| #[trigger] map_of(after).contains_key(k) implies map_of(after)[k] == map_of(before).insert(name@, (value.model(), mutable))[k] by {
                let j = choose|j: int| 0 <= j < after.len() && after[j].name@ == k;
                match pos {
                    Ok(i) => {
                        if j != i {
                            assert(before[j] == after[j]);
                            if k == name@ {
                                lemma_name_trichotomy(k, k);
                                assert(i < j ==> name_lt(after[i as int].name@, after[j].name@));
                                assert(j < i ==> name_lt(after[j].name@, after[i as int].name@));
                            }
                        }
                    },
                    Err(i) => {
                        if j < i {
                            assert(before[j] == after[j]);
                            lemma_name_trichotomy(k, name@);
                        } else if j > i {
                            assert(before[j - 1] == after[j]);
                            lemma_name_trichotomy(k, name@);
                        }
                    },
                }
            }
            assert(map_of(after) =~= map_of(before).insert(name@, (value.model(), mutable)));
        }
        self.entries = entries;
    }
}

impl View for Scope {
    type V = Map<Seq<char>, (Val, bool)>;

    closed spec fn view(&self) -> Map<Seq<char>, (Val, bool)> {
        map_of(self.entries@)
    }
}

} // verus!
