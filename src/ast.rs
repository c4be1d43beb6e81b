use vstd::prelude::*;
use crate::token::{Operator, Type, TypeView, Value};

verus! {

broadcast use vstd::std_specs::vec::axiom_vec_decreases_to_view;

/// A node of the syntax tree. `Empty` marks a missing child.
#[derive(Debug)]
pub enum AST {
    Binary(Operator, Box<AST>, Box<AST>),
    Unary(Operator, Box<AST>),
    Value(Type, Value),
    Identifier(String),
    Function(String, Vec<AST>, Box<AST>),
    Call(String, Vec<AST>),
    Variable(String, Type, Box<AST>),
    If(Box<AST>, Box<AST>, Box<AST>),
    Loop(Box<AST>),
    Statement(Vec<AST>),
    Empty,
}

/// What a syntax tree means, with names as character sequences.
pub enum Tree {
    Binary(Operator, Box<Tree>, Box<Tree>),
    Unary(Operator, Box<Tree>),
    Value(TypeView, Value),
    Identifier(Seq<char>),
    Function(Seq<char>, Seq<Tree>, Box<Tree>),
    Call(Seq<char>, Seq<Tree>),
    Variable(Seq<char>, TypeView, Box<Tree>),
    If(Box<Tree>, Box<Tree>, Box<Tree>),
    Loop(Box<Tree>),
    Statement(Seq<Tree>),
    Empty,
}

/// The meanings of a sequence of nodes.
pub open spec fn trees(xs: Seq<AST>) -> Seq<Tree> {
    Seq::new(xs.len(), |i: int| xs[i].tree())
}

impl AST {
    /// Whether this is the marker of a missing child.
    pub fn is_none(&self) -> (r: bool)
        ensures
            r == (*self is Empty),
    {
        match self {
            AST::Empty => true,
            _ => false,
        }
    }

    pub open spec fn tree(&self) -> Tree
        decreases self,
    {
        match self {
            AST::Binary(o, l, r) => Tree::Binary(*o, Box::new(l.tree()), Box::new(r.tree())),
            AST::Unary(o, x) => Tree::Unary(*o, Box::new(x.tree())),
            AST::Value(t, v) => Tree::Value(t@, *v),
            AST::Identifier(s) => Tree::Identifier(s@),
            AST::Function(n, ps, b) => Tree::Function(
                n@,
                Seq::new(ps.len() as nat, |i: int| if 0 <= i < ps.len() { ps[i].tree() } else { Tree::Empty }),
                Box::new(b.tree()),
            ),
            AST::Call(n, args) => Tree::Call(
                n@,
                Seq::new(args.len() as nat, |i: int| if 0 <= i < args.len() { args[i].tree() } else { Tree::Empty }),
            ),
            AST::Variable(n, t, i) => Tree::Variable(n@, t@, Box::new(i.tree())),
            AST::If(c, t, e) => Tree::If(Box::new(c.tree()), Box::new(t.tree()), Box::new(e.tree())),
            AST::Loop(b) => Tree::Loop(Box::new(b.tree())),
            AST::Statement(xs) => Tree::Statement(
                Seq::new(xs.len() as nat, |i: int| if 0 <= i < xs.len() { xs[i].tree() } else { Tree::Empty }),
            ),
            AST::Empty => Tree::Empty,
        }
    }
}

/// The list children of a node mean the sequence of their trees.
pub proof fn lemma_call_tree(n: String, xs: Vec<AST>)
    ensures
        AST::Call(n, xs).tree() == Tree::Call(n@, trees(xs@)),
{
    assert(AST::Call(n, xs).tree()->Call_1 =~= trees(xs@));
}

pub proof fn lemma_statement_tree(xs: Vec<AST>)
    ensures
        AST::Statement(xs).tree() == Tree::Statement(trees(xs@)),
{
    assert(AST::Statement(xs).tree()->Statement_0 =~= trees(xs@));
}

pub proof fn lemma_function_tree(n: String, xs: Vec<AST>, b: Box<AST>)
    ensures
        AST::Function(n, xs, b).tree() == Tree::Function(n@, trees(xs@), Box::new(b.tree())),
{
    assert(AST::Function(n, xs, b).tree()->Function_1 =~= trees(xs@));
}

} // verus!
