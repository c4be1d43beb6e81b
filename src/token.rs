use vstd::prelude::*;

verus! {

/// The operator kinds, all distinct.
#[derive(Clone, Copy, Debug, PartialEq, Eq, Structural)]
pub enum Operator {
    Add,
    Sub,
    Mul,
    Div,
    Mod,
    Assign,
    And,
    Or,
    Not,
    Equal,
    LT,
    GT,
    LTE,
    GTE,
    NE,
    Comma,
}

/// The type tag of a literal or of an annotation.
#[derive(Debug)]
pub enum Type {
    Int,
    Id(String),
    Untyped,
}

impl Clone for Type {
    fn clone(&self) -> (r: Type)
        ensures
            r == *self,
    {
        match self {
            Type::Int => Type::Int,
            Type::Id(s) => Type::Id(s.clone()),
            Type::Untyped => Type::Untyped,
        }
    }
}

/// The payload of a literal; only 64-bit integers are produced.
#[derive(Clone, Copy, Debug, PartialEq, Eq, Structural)]
pub enum Value {
    Int(i64),
    Absent,
}

/// Keywords and punctuation.
#[derive(Clone, Copy, Debug, PartialEq, Eq, Structural)]
pub enum ReservedWord {
    If,
    Else,
    Loop,
    FN,
    Let,
    LParen,
    RParen,
    LBrace,
    RBrace,
    Continue,
    Break,
    Collon,
    SemiCollon,
}

#[derive(Debug)]
pub enum Token {
    Operator(Operator),
    Value(Type, Value),
    ReservedWord(ReservedWord),
    Identifier(String),
    EOF,
    Error,
}

impl Clone for Token {
    fn clone(&self) -> (r: Token)
        ensures
            r == *self,
    {
        match self {
            Token::Operator(o) => Token::Operator(*o),
            Token::Value(t, v) => Token::Value(t.clone(), *v),
            Token::ReservedWord(w) => Token::ReservedWord(*w),
            Token::Identifier(s) => Token::Identifier(s.clone()),
            Token::EOF => Token::EOF,
            Token::Error => Token::Error,
        }
    }
}

/// What a type tag means, with names as character sequences.
pub enum TypeView {
    Int,
    Id(Seq<char>),
    Untyped,
}

impl View for Type {
    type V = TypeView;

    open spec fn view(&self) -> TypeView {
        match self {
            Type::Int => TypeView::Int,
            Type::Id(s) => TypeView::Id(s@),
            Type::Untyped => TypeView::Untyped,
        }
    }
}

/// What a token means, with names as character sequences.
pub enum TokenView {
    Operator(Operator),
    Value(TypeView, Value),
    ReservedWord(ReservedWord),
    Identifier(Seq<char>),
    EOF,
    Error,
}

impl View for Token {
    type V = TokenView;

    open spec fn view(&self) -> TokenView {
        match self {
            Token::Operator(o) => TokenView::Operator(*o),
            Token::Value(t, v) => TokenView::Value(t@, *v),
            Token::ReservedWord(w) => TokenView::ReservedWord(*w),
            Token::Identifier(s) => TokenView::Identifier(s@),
            Token::EOF => TokenView::EOF,
            Token::Error => TokenView::Error,
        }
    }
}

/// The meaning of each token of a sequence.
pub open spec fn token_views(ts: Seq<Token>) -> Seq<TokenView> {
    ts.map_values(|t: Token| t@)
}

} // verus!
