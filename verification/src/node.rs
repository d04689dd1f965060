use vstd::prelude::*;

verus! {

broadcast use vstd::std_specs::vec::axiom_vec_decreases_to_view;

/// What a node of the syntax tree is.
#[derive(Debug, PartialEq)]
pub enum NodeType {
    Bool(bool),
    Scope,
    Int(i32),
    Float(u32),
    Nil,
    String(String),
    FunctionCall(String),
    Identifier(String),
}

/// A node of the syntax tree: a scope, a call, a literal or a name, with its
/// children (the body of a scope, the arguments of a call).
#[derive(Debug, PartialEq)]
pub struct Node {
    pub ntype: NodeType,
    pub children: Vec<Node>,
}

/// The mathematical model of a [`NodeType`].
pub enum Kind {
    Bool(bool),
    Scope,
    Int(i32),
    Float(u32),
    Nil,
    Str(Seq<char>),
    Call(Seq<char>),
    Ident(Seq<char>),
}

/// The mathematical model of a [`Node`].
pub struct Tree {
    pub kind: Kind,
    pub children: Seq<Tree>,
}

impl NodeType {
    pub open spec fn model(self) -> Kind {
        match self {
            NodeType::Bool(b) => Kind::Bool(b),
            NodeType::Scope => Kind::Scope,
            NodeType::Int(i) => Kind::Int(i),
            NodeType::Float(f) => Kind::Float(f),
            NodeType::Nil => Kind::Nil,
            NodeType::String(s) => Kind::Str(s@),
            NodeType::FunctionCall(s) => Kind::Call(s@),
            NodeType::Identifier(s) => Kind::Ident(s@),
        }
    }

    /// A copy of this node type.
    pub fn duplicate(&self) -> (res: NodeType)
        ensures
            res.model() == self.model(),
    {
        match self {
            NodeType::Bool(b) => NodeType::Bool(*b),
            NodeType::Scope => NodeType::Scope,
            NodeType::Int(i) => NodeType::Int(*i),
            NodeType::Float(f) => NodeType::Float(*f),
            NodeType::Nil => NodeType::Nil,
            NodeType::String(s) => NodeType::String(s.clone()),
            NodeType::FunctionCall(s) => NodeType::FunctionCall(s.clone()),
            NodeType::Identifier(s) => NodeType::Identifier(s.clone()),
        }
    }
}

/// The models of a sequence of nodes, node by node.
pub open spec fn trees_of(s: Seq<Node>) -> Seq<Tree>
    decreases s,
{
    if s.len() == 0 {
        Seq::empty()
    } else {
        seq![s[0].model()] + trees_of(s.drop_first())
    }
}

/// The model of a sequence of nodes has its length and holds each model in place.
pub proof fn lemma_trees_of(s: Seq<Node>)
    ensures
        trees_of(s).len() == s.len(),
        forall|i: int| 0 <= i < s.len() ==> #[trigger] trees_of(s)[i] == s[i].model(),
    decreases s.len(),
{
    if s.len() > 0 {
        lemma_trees_of(s.drop_first());
        assert forall|i: int| 0 <= i < s.len() implies #[trigger] trees_of(s)[i] == s[i].model() by {
            if i > 0 {
                assert(s.drop_first()[i - 1] == s[i]);
            }
        }
    }
}

impl Node {
    pub open spec fn model(self) -> Tree
        decreases self,
    {
        Tree { kind: self.ntype.model(), children: trees_of(self.children@) }
    }

    /// A copy of this node and of everything below it.
    pub fn duplicate(&self) -> (res: Node)
        ensures
            res.model() == self.model(),
        decreases self,
    {
        Node { ntype: self.ntype.duplicate(), children: duplicate_nodes(&self.children) }
    }
}

impl Clone for Node {
    /// A copy of this node and of everything below it.
    fn clone(&self) -> (res: Node)
        ensures
            res.model() == self.model(),
    {
        self.duplicate()
    }
}

/// A copy of a list of nodes, node by node.
pub fn duplicate_nodes(v: &Vec<Node>) -> (res: Vec<Node>)
    ensures
        trees_of(res@) == trees_of(v@),
    decreases v,
{
    let mut res: Vec<Node> = Vec::new();
    let mut i: usize = 0;
    while i < v.len()
        invariant
            i <= v.len(),
            res@.len() == i,
            forall|j: int| 0 <= j < i ==> #[trigger] res@[j].model() == v@[j].model(),
        decreases v.len() - i,
    {
        assert(decreases_to!(v => v@[i as int]));
        let x = v[i].duplicate();
        res.push(x);
        i = i + 1;
    }
    proof {
        lemma_trees_of(res@);
        lemma_trees_of(v@);
        assert(trees_of(res@) =~= trees_of(v@));
    }
    res
}

} // verus!
