use vstd::prelude::*;
use crate::ast::{AST, Tree, trees, lemma_call_tree, lemma_function_tree, lemma_statement_tree};
use crate::buffer::Buffer;
use crate::token::{Operator, ReservedWord, Token, TokenView, Type, TypeView, Value, token_views};

verus! {

/// Why a token sequence is not a program.
#[derive(Clone, Copy, Debug, PartialEq, Eq, Structural)]
pub enum ParseError {
    ExpectIdentifier,
    ExpectLParen,
    ExpectedRParen,
    ExpectedRBrace,
    UndefinedReservedWord,
    UnexpectedToken,
    TokenTypeError,
}

impl ParseError {
    /// The diagnostic for this error.
    pub fn message(&self) -> (r: &'static str)
        ensures
            *self == ParseError::ExpectIdentifier ==> r@ == "Expect Identifier"@,
            *self == ParseError::ExpectLParen ==> r@ == "Expect LParen"@,
            *self == ParseError::ExpectedRParen ==> r@ == "Expected ')'"@,
            *self == ParseError::ExpectedRBrace ==> r@ == "Expected '}'"@,
            *self == ParseError::UndefinedReservedWord ==> r@ == "Undefined Reserved Word"@,
            *self == ParseError::UnexpectedToken ==> r@ == "Unexpected Token"@,
            *self == ParseError::TokenTypeError ==> r@ == "Token Type Error"@,
    {
        match self {
            ParseError::ExpectIdentifier => "Expect Identifier",
            ParseError::ExpectLParen => "Expect LParen",
            ParseError::ExpectedRParen => "Expected ')'",
            ParseError::ExpectedRBrace => "Expected '}'",
            ParseError::UndefinedReservedWord => "Undefined Reserved Word",
            ParseError::UnexpectedToken => "Unexpected Token",
            ParseError::TokenTypeError => "Token Type Error",
        }
    }
}

/// A parsed tree and the position after it, or why parsing failed.
pub type Parsed = Result<(Tree, int), ParseError>;

pub open spec fn is_at(ts: Seq<TokenView>, p: int, t: TokenView) -> bool {
    0 <= p < ts.len() && ts[p] == t
}

pub open spec fn rw(w: ReservedWord) -> TokenView {
    TokenView::ReservedWord(w)
}

pub open spec fn op(o: Operator) -> TokenView {
    TokenView::Operator(o)
}

pub open spec fn binary(o: Operator, l: Tree, r: Tree) -> Tree {
    Tree::Binary(o, Box::new(l), Box::new(r))
}

pub open spec fn is_compare(o: Operator) -> bool {
    o == Operator::Equal || o == Operator::NE || o == Operator::LT || o == Operator::LTE || o
        == Operator::GT || o == Operator::GTE
}

/// The declared type of a parameter whose name stands at `p - 1`, and the
/// position after it.
pub open spec fn param_type(ts: Seq<TokenView>, p: int) -> Result<(TypeView, int), ParseError> {
    if is_at(ts, p, rw(ReservedWord::Collon)) {
        if 0 <= p + 1 < ts.len() && ts[p + 1] is Identifier {
            Ok((TypeView::Id(ts[p + 1]->Identifier_0), p + 2))
        } else {
            Err(ParseError::ExpectIdentifier)
        }
    } else {
        Ok((TypeView::Untyped, p))
    }
}

pub open spec fn param(x: Seq<char>, t: TypeView) -> Tree {
    Tree::Variable(x, t, Box::new(Tree::Empty))
}
/// The expressions of a block after its "{", up to the closing "}".
/// statement := "{" expression* "}" | expression
/// program := statement*, up to the end of the tokens or an end marker.
pub open spec fn program_at(ts: Seq<TokenView>, p: int, acc: Seq<Tree>) -> Result<Tree, ParseError>
    decreases (ts.len() - p) as nat,
{
    if p < 0 || p >= ts.len() || ts[p] == TokenView::EOF {
        Ok(Tree::Statement(acc))
    } else {
        match rule_at(Rule::Statement, ts, p) {
            Ok((s, q)) => if p < q <= ts.len() {
                program_at(ts, q, acc.push(s))
            } else {
                Err(ParseError::UnexpectedToken)
            },
            Err(e) => Err(e),
        }
    }
}

/// The tree of a whole token sequence.
pub open spec fn parse_tokens(ts: Seq<TokenView>) -> Result<Tree, ParseError> {
    program_at(ts, 0, Seq::empty())
}


/// The grammar rules, some with what was gathered before the position.
pub enum Rule {
    Factor,
    CallArgs(Seq<char>, Seq<Tree>),
    Let,
    Fn,
    FnParams(Seq<char>, Seq<Tree>),
    FnBody(Seq<char>, Seq<Tree>),
    Loop,
    If,
    Paren,
    Product,
    ProductRest(Tree),
    Sum,
    SumRest(Tree),
    Bit,
    BitRest(Tree),
    Compare,
    Assign,
    AssignRest(Tree),
    Expression,
    Block(Seq<Tree>),
    Statement,
}

/// The order in which rules call each other at one position.
pub open spec fn rank(r: Rule) -> nat {
    match r {
        Rule::Factor => 0,
        Rule::CallArgs(..) => 13,
        Rule::Let => 13,
        Rule::Fn => 13,
        Rule::FnParams(..) => 13,
        Rule::FnBody(..) => 13,
        Rule::Loop => 13,
        Rule::If => 13,
        Rule::Paren => 13,
        Rule::Product => 2,
        Rule::ProductRest(..) => 1,
        Rule::Sum => 4,
        Rule::SumRest(..) => 3,
        Rule::Bit => 6,
        Rule::BitRest(..) => 5,
        Rule::Compare => 7,
        Rule::Assign => 9,
        Rule::AssignRest(..) => 8,
        Rule::Expression => 10,
        Rule::Block(..) => 11,
        Rule::Statement => 12,
    }
}

/// What parsing by rule `r` from position `p` gives: a tree and the
/// position after it, or why the tokens do not fit.
///
/// statement := "{" expression* "}" | expression
/// expression := assign
/// assign := compare ( "=" assign )*, right-associative
/// compare := bit [ ( "==" | "!=" | "<" | "<=" | ">" | ">=" ) bit ], not chained
/// bit := sum ( ( "&" | "|" ) sum )*, left-associative
/// sum := product ( ( "+" | "-" ) product )*, left-associative
/// product := factor ( ( "*" | "/" ) factor )*, left-associative
/// factor := Identifier | Identifier "(" args ")" | IntLiteral
///         | "let" Identifier [ "=" expression ]
///         | "fn" Identifier "(" params ")" statement
///         | "loop" statement | "if" expression statement [ "else" statement ]
///         | "(" expression ")" | "+" factor | "-" factor | ";" factor
/// A missing factor, at the end of the tokens or before a "}", is an
/// unexpected token.
pub open spec fn rule_at(r: Rule, ts: Seq<TokenView>, p: int) -> Parsed
    decreases (ts.len() - p) as nat, rank(r),
{
    match r {
        Rule::Factor => {
            if p < 0 || p >= ts.len() {
                Err(ParseError::UnexpectedToken)
            } else {
                match ts[p] {
                    TokenView::Identifier(x) => {
                        if is_at(ts, p + 1, rw(ReservedWord::LParen)) {
                            rule_at(Rule::CallArgs(x, Seq::empty()), ts, p + 2)
                        } else {
                            Ok((Tree::Identifier(x), p + 1))
                        }
                    },
                    TokenView::Value(TypeView::Int, v) => Ok((Tree::Value(TypeView::Int, v), p + 1)),
                    TokenView::ReservedWord(w) => {
                        if w == ReservedWord::Let {
                            rule_at(Rule::Let, ts, p + 1)
                        } else if w == ReservedWord::FN {
                            rule_at(Rule::Fn, ts, p + 1)
                        } else if w == ReservedWord::Loop {
                            rule_at(Rule::Loop, ts, p + 1)
                        } else if w == ReservedWord::RBrace {
                            Err(ParseError::UnexpectedToken)
                        } else if w == ReservedWord::LParen {
                            rule_at(Rule::Paren, ts, p + 1)
                        } else if w == ReservedWord::If {
                            rule_at(Rule::If, ts, p + 1)
                        } else if w == ReservedWord::SemiCollon {
                            rule_at(Rule::Factor, ts, p + 1)
                        } else {
                            Err(ParseError::UndefinedReservedWord)
                        }
                    },
                    TokenView::Operator(o) => {
                        if o == Operator::Add {
                            rule_at(Rule::Factor, ts, p + 1)
                        } else if o == Operator::Sub {
                            match rule_at(Rule::Factor, ts, p + 1) {
                                Ok((x, q)) => Ok((Tree::Unary(Operator::Sub, Box::new(x)), q)),
                                Err(e) => Err(e),
                            }
                        } else {
                            Err(ParseError::UnexpectedToken)
                        }
                    },
                    _ => Err(ParseError::TokenTypeError),
                }
            }
        },
        Rule::CallArgs(name, acc) => {
            if p < 0 || p >= ts.len() {
                Err(ParseError::ExpectedRParen)
            } else if ts[p] == rw(ReservedWord::RParen) {
                Ok((Tree::Call(name, acc), p + 1))
            } else if ts[p] == op(Operator::Comma) {
                rule_at(Rule::CallArgs(name, acc), ts, p + 1)
            } else {
                match rule_at(Rule::Expression, ts, p) {
                    Ok((e, q)) => {
                        if p < q <= ts.len() {
                            rule_at(Rule::CallArgs(name, acc.push(e)), ts, q)
                        } else {
                            Err(ParseError::UnexpectedToken)
                        }
                    },
                    Err(e) => Err(e),
                }
            }
        },
        Rule::Let => {
            if p < 0 || p >= ts.len() {
                Err(ParseError::ExpectIdentifier)
            } else {
                match ts[p] {
                    TokenView::Identifier(x) => {
                        if is_at(ts, p + 1, op(Operator::Assign)) {
                            match rule_at(Rule::Expression, ts, p + 2) {
                                Ok((e, q)) => Ok((Tree::Variable(x, TypeView::Untyped, Box::new(e)), q)),
                                Err(e) => Err(e),
                            }
                        } else {
                            Ok((Tree::Variable(x, TypeView::Untyped, Box::new(Tree::Empty)), p + 1))
                        }
                    },
                    _ => Err(ParseError::ExpectIdentifier),
                }
            }
        },
        Rule::Fn => {
            if p < 0 || p >= ts.len() {
                Err(ParseError::ExpectIdentifier)
            } else {
                match ts[p] {
                    TokenView::Identifier(x) => {
                        if is_at(ts, p + 1, rw(ReservedWord::LParen)) {
                            rule_at(Rule::FnParams(x, Seq::empty()), ts, p + 2)
                        } else {
                            Err(ParseError::ExpectLParen)
                        }
                    },
                    _ => Err(ParseError::ExpectIdentifier),
                }
            }
        },
        Rule::FnParams(name, acc) => {
            if p < 0 || p >= ts.len() {
                Err(ParseError::ExpectedRParen)
            } else if ts[p] == rw(ReservedWord::RParen) && acc.len() == 0 {
                rule_at(Rule::FnBody(name, acc), ts, p + 1)
            } else {
                match ts[p] {
                    TokenView::Identifier(x) => {
                        match param_type(ts, p + 1) {
                            Ok((t, q)) => {
                                if q < 0 || q >= ts.len() {
                                    Err(ParseError::ExpectedRParen)
                                } else if ts[q] == op(Operator::Comma) {
                                    rule_at(Rule::FnParams(name, acc.push(param(x, t))), ts, q + 1)
                                } else if ts[q] == rw(ReservedWord::RParen) {
                                    rule_at(Rule::FnBody(name, acc.push(param(x, t))), ts, q + 1)
                                } else {
                                    Err(ParseError::UnexpectedToken)
                                }
                            },
                            Err(e) => Err(e),
                        }
                    },
                    _ => Err(ParseError::ExpectIdentifier),
                }
            }
        },
        Rule::FnBody(name, params) => {
            match rule_at(Rule::Statement, ts, p) {
                Ok((b, q)) => Ok((Tree::Function(name, params, Box::new(b)), q)),
                Err(e) => Err(e),
            }
        },
        Rule::Loop => {
            match rule_at(Rule::Statement, ts, p) {
                Ok((b, q)) => Ok((Tree::Loop(Box::new(b)), q)),
                Err(e) => Err(e),
            }
        },
        Rule::If => {
            match rule_at(Rule::Expression, ts, p) {
                Ok((c, q)) => {
                    if q < p || q > ts.len() {
                        Err(ParseError::UnexpectedToken)
                    } else {
                        match rule_at(Rule::Statement, ts, q) {
                            Ok((t, r)) => {
                                if r < p || r > ts.len() {
                                    Err(ParseError::UnexpectedToken)
                                } else if is_at(ts, r, rw(ReservedWord::Else)) {
                                    match rule_at(Rule::Statement, ts, r + 1) {
                                        Ok((e, s)) => Ok(
                                            (Tree::If(Box::new(c), Box::new(t), Box::new(e)), s),
                                        ),
                                        Err(e) => Err(e),
                                    }
                                } else {
                                    Ok((Tree::If(Box::new(c), Box::new(t), Box::new(Tree::Empty)), r))
                                }
                            },
                            Err(e) => Err(e),
                        }
                    }
                },
                Err(e) => Err(e),
            }
        },
        Rule::Paren => {
            match rule_at(Rule::Expression, ts, p) {
                Ok((e, q)) => {
                    if is_at(ts, q, rw(ReservedWord::RParen)) {
                        Ok((e, q + 1))
                    } else {
                        Err(ParseError::ExpectedRParen)
                    }
                },
                Err(e) => Err(e),
            }
        },
        Rule::Product => {
            match rule_at(Rule::Factor, ts, p) {
                Ok((x, q)) => if p <= q <= ts.len() {
                    rule_at(Rule::ProductRest(x), ts, q)
                } else {
                    Err(ParseError::UnexpectedToken)
                },
                Err(e) => Err(e),
            }
        },
        Rule::ProductRest(acc) => {
            if is_at(ts, p, op(Operator::Mul)) || is_at(ts, p, op(Operator::Div)) {
                match rule_at(Rule::Factor, ts, p + 1) {
                    Ok((x, q)) => if p < q <= ts.len() {
                        rule_at(Rule::ProductRest(binary(ts[p]->Operator_0, acc, x)), ts, q)
                    } else {
                        Err(ParseError::UnexpectedToken)
                    },
                    Err(e) => Err(e),
                }
            } else {
                Ok((acc, p))
            }
        },
        Rule::Sum => {
            match rule_at(Rule::Product, ts, p) {
                Ok((x, q)) => if p <= q <= ts.len() {
                    rule_at(Rule::SumRest(x), ts, q)
                } else {
                    Err(ParseError::UnexpectedToken)
                },
                Err(e) => Err(e),
            }
        },
        Rule::SumRest(acc) => {
            if is_at(ts, p, op(Operator::Add)) || is_at(ts, p, op(Operator::Sub)) {
                match rule_at(Rule::Product, ts, p + 1) {
                    Ok((x, q)) => if p < q <= ts.len() {
                        rule_at(Rule::SumRest(binary(ts[p]->Operator_0, acc, x)), ts, q)
                    } else {
                        Err(ParseError::UnexpectedToken)
                    },
                    Err(e) => Err(e),
                }
            } else {
                Ok((acc, p))
            }
        },
        Rule::Bit => {
            match rule_at(Rule::Sum, ts, p) {
                Ok((x, q)) => if p <= q <= ts.len() {
                    rule_at(Rule::BitRest(x), ts, q)
                } else {
                    Err(ParseError::UnexpectedToken)
                },
                Err(e) => Err(e),
            }
        },
        Rule::BitRest(acc) => {
            if is_at(ts, p, op(Operator::And)) || is_at(ts, p, op(Operator::Or)) {
                match rule_at(Rule::Sum, ts, p + 1) {
                    Ok((x, q)) => if p < q <= ts.len() {
                        rule_at(Rule::BitRest(binary(ts[p]->Operator_0, acc, x)), ts, q)
                    } else {
                        Err(ParseError::UnexpectedToken)
                    },
                    Err(e) => Err(e),
                }
            } else {
                Ok((acc, p))
            }
        },
        Rule::Compare => {
            match rule_at(Rule::Bit, ts, p) {
                Ok((x, q)) => {
                    if q < p {
                        Err(ParseError::UnexpectedToken)
                    } else if 0 <= q < ts.len() && ts[q] is Operator && is_compare(ts[q]->Operator_0) {
                        match rule_at(Rule::Bit, ts, q + 1) {
                            Ok((y, r)) => Ok((binary(ts[q]->Operator_0, x, y), r)),
                            Err(e) => Err(e),
                        }
                    } else {
                        Ok((x, q))
                    }
                },
                Err(e) => Err(e),
            }
        },
        Rule::Assign => {
            match rule_at(Rule::Compare, ts, p) {
                Ok((x, q)) => if p <= q <= ts.len() {
                    rule_at(Rule::AssignRest(x), ts, q)
                } else {
                    Err(ParseError::UnexpectedToken)
                },
                Err(e) => Err(e),
            }
        },
        Rule::AssignRest(acc) => {
            if is_at(ts, p, op(Operator::Assign)) {
                match rule_at(Rule::Assign, ts, p + 1) {
                    Ok((x, q)) => if p < q <= ts.len() {
                        rule_at(Rule::AssignRest(binary(Operator::Assign, acc, x)), ts, q)
                    } else {
                        Err(ParseError::UnexpectedToken)
                    },
                    Err(e) => Err(e),
                }
            } else {
                Ok((acc, p))
            }
        },
        Rule::Expression => {
            rule_at(Rule::Assign, ts, p)
        },
        Rule::Block(acc) => {
            if p < 0 || p >= ts.len() {
                Err(ParseError::ExpectedRBrace)
            } else if ts[p] == rw(ReservedWord::RBrace) {
                Ok((Tree::Statement(acc), p + 1))
            } else {
                match rule_at(Rule::Expression, ts, p) {
                    Ok((e, q)) => if p < q <= ts.len() {
                        rule_at(Rule::Block(acc.push(e)), ts, q)
                    } else {
                        Err(ParseError::UnexpectedToken)
                    },
                    Err(e) => Err(e),
                }
            }
        },
        Rule::Statement => {
            if is_at(ts, p, rw(ReservedWord::LBrace)) {
                rule_at(Rule::Block(Seq::empty()), ts, p + 1)
            } else {
                rule_at(Rule::Expression, ts, p)
            }
        },
    }
}

fn is_compare_op(o: Operator) -> (r: bool)
    ensures
        r == is_compare(o),
{
    o == Operator::Equal || o == Operator::NE || o == Operator::LT || o == Operator::LTE || o
        == Operator::GT || o == Operator::GTE
}

/// A recursive-descent parser over a token sequence.
pub struct Parser {
    buf: Buffer<Token>,
}

impl Parser {
    pub closed spec fn wf(&self) -> bool {
        self.buf.wf()
    }

    /// The tokens being parsed.
    pub closed spec fn toks(&self) -> Seq<TokenView> {
        token_views(self.buf.items())
    }

    /// The position of the next token.
    pub closed spec fn pos(&self) -> int {
        self.buf.pos()
    }

    /// The parser moved forward from `before` over the same tokens; on
    /// success it consumed at least one token if any was left.
    closed spec fn moved(&self, before: &Parser, ok: bool) -> bool {
        &&& self.wf()
        &&& self.toks() == before.toks()
        &&& ok ==> before.pos() <= self.pos() <= self.toks().len()
        &&& ok && before.pos() < before.toks().len() ==> self.pos() > before.pos()
    }

    /// The outcome `r` is the expected one, and the parser stands after it.
    closed spec fn gives(&self, r: Result<AST, ParseError>, expected: Parsed) -> bool {
        match expected {
            Ok((t, q)) => r matches Ok(a) && a.tree() == t && self.pos() == q,
            Err(e) => r == Err::<AST, ParseError>(e),
        }
    }

    proof fn lemma_pos(&self)
        requires
            self.wf(),
        ensures
            0 <= self.pos() <= self.toks().len(),
    {
        self.buf.lemma_wf();
    }

    pub fn new() -> (r: Self)
        ensures
            r.wf(),
            r.toks().len() == 0,
    {
        Parser { buf: Buffer::default() }
    }

    fn take(&mut self) -> (r: Option<Token>)
        requires
            old(self).wf(),
        ensures
            final(self).wf(),
            final(self).toks() == old(self).toks(),
            0 <= old(self).pos() <= old(self).toks().len(),
            old(self).pos() < old(self).toks().len() ==> {
                &&& r matches Some(t) && t@ == old(self).toks()[old(self).pos()]
                &&& final(self).pos() == old(self).pos() + 1
            },
            old(self).pos() >= old(self).toks().len() ==> r is None && final(self).pos() == old(
                self,
            ).pos(),
    {
        proof {
            self.buf.lemma_wf();
        }
        self.buf.next()
    }

    fn back(&mut self)
        requires
            old(self).wf(),
            old(self).pos() > 0,
        ensures
            final(self).wf(),
            final(self).toks() == old(self).toks(),
            final(self).pos() == old(self).pos() - 1,
    {
        self.buf.prev();
    }

    fn factor(&mut self) -> (r: Result<AST, ParseError>)
        requires
            old(self).wf(),
        ensures
            final(self).moved(old(self), r is Ok),
            final(self).gives(r, rule_at(Rule::Factor, old(self).toks(), old(self).pos())),
        decreases (old(self).toks().len() - old(self).pos()) as nat, 0nat,
    {
        proof {
            self.lemma_pos();
        }
        let ghost ts = self.toks();
        let ghost p = self.pos();
        match self.take() {
            None => Err(ParseError::UnexpectedToken),
            Some(tok) => match tok {
                Token::Identifier(x) => {
                    match self.take() {
                        None => Ok(AST::Identifier(x)),
                        Some(Token::ReservedWord(ReservedWord::LParen)) => {
                            let acc: Vec<AST> = Vec::new();
                            assert(trees(acc@) =~= Seq::<Tree>::empty());
                            self.call_args(x, acc)
                        },
                        Some(_) => {
                            self.back();
                            Ok(AST::Identifier(x))
                        },
                    }
                },
                Token::Value(Type::Int, v) => Ok(AST::Value(Type::Int, v)),
                Token::ReservedWord(w) => match w {
                    ReservedWord::Let => self.let_expr(),
                    ReservedWord::FN => self.fn_expr(),
                    ReservedWord::Loop => self.loop_expr(),
                    ReservedWord::RBrace => Err(ParseError::UnexpectedToken),
                    ReservedWord::LParen => self.paren_expr(),
                    ReservedWord::If => self.if_expr(),
                    ReservedWord::SemiCollon => self.factor(),
                    _ => Err(ParseError::UndefinedReservedWord),
                },
                Token::Operator(o) => match o {
                    Operator::Add => self.factor(),
                    Operator::Sub => match self.factor() {
                        Ok(x) => Ok(AST::Unary(Operator::Sub, Box::new(x))),
                        Err(e) => Err(e),
                    },
                    _ => Err(ParseError::UnexpectedToken),
                },
                _ => Err(ParseError::TokenTypeError),
            },
        }
    }

    fn call_args(&mut self, name: String, acc: Vec<AST>) -> (r: Result<AST, ParseError>)
        requires
            old(self).wf(),
        ensures
            final(self).moved(old(self), r is Ok),
            final(self).gives(r, rule_at(Rule::CallArgs(name@, trees(acc@)), old(self).toks(), old(self).pos())),
        decreases (old(self).toks().len() - old(self).pos()) as nat, 13nat,
    {
        proof {
            self.lemma_pos();
        }
        let ghost ts = self.toks();
        let ghost start = self.pos();
        let mut items = acc;
        let ghost expected = rule_at(Rule::CallArgs(name@, trees(items@)), ts, start);
        loop
            invariant
                expected == rule_at(Rule::CallArgs(name@, trees(items@)), ts, self.pos()),
                expected == rule_at(Rule::CallArgs(name@, trees(acc@)), old(self).toks(), old(self).pos()),
                self.wf(),
                self.toks() == ts,
                ts == old(self).toks(),
                start == old(self).pos(),
                0 <= start <= self.pos() <= ts.len(),
            decreases ts.len() - self.pos(),
        {
            let ghost p = self.pos();
            match self.take() {
                None => {
                    return Err(ParseError::ExpectedRParen);
                },
                Some(Token::ReservedWord(ReservedWord::RParen)) => {
                    proof {
                        lemma_call_tree(name, items);
                    }
                    return Ok(AST::Call(name, items));
                },
                Some(Token::Operator(Operator::Comma)) => {},
                Some(_) => {
                    self.back();
                    match self.expression() {
                        Ok(e) => {
                            let ghost before = trees(items@);
                            items.push(e);
                            assert(trees(items@) =~= before.push(e.tree()));
                        },
                        Err(e) => {
                            return Err(e);
                        },
                    }
                },
            }
        }
    }

    fn let_expr(&mut self) -> (r: Result<AST, ParseError>)
        requires
            old(self).wf(),
        ensures
            final(self).moved(old(self), r is Ok),
            final(self).gives(r, rule_at(Rule::Let, old(self).toks(), old(self).pos())),
        decreases (old(self).toks().len() - old(self).pos()) as nat, 13nat,
    {
        proof {
            self.lemma_pos();
            assert(AST::Empty.tree() == Tree::Empty);
        }
        let ghost ts = self.toks();
        let ghost p = self.pos();
        match self.take() {
            Some(Token::Identifier(x)) => {
                match self.take() {
                    Some(Token::Operator(Operator::Assign)) => {
                        match self.expression() {
                            Ok(e) => Ok(AST::Variable(x, Type::Untyped, Box::new(e))),
                            Err(e) => Err(e),
                        }
                    },
                    Some(_) => {
                        self.back();
                        Ok(AST::Variable(x, Type::Untyped, Box::new(AST::Empty)))
                    },
                    None => Ok(AST::Variable(x, Type::Untyped, Box::new(AST::Empty))),
                }
            },
            _ => Err(ParseError::ExpectIdentifier),
        }
    }

    fn fn_expr(&mut self) -> (r: Result<AST, ParseError>)
        requires
            old(self).wf(),
        ensures
            final(self).moved(old(self), r is Ok),
            final(self).gives(r, rule_at(Rule::Fn, old(self).toks(), old(self).pos())),
        decreases (old(self).toks().len() - old(self).pos()) as nat, 13nat,
    {
        proof {
            self.lemma_pos();
        }
        match self.take() {
            Some(Token::Identifier(x)) => {
                match self.take() {
                    Some(Token::ReservedWord(ReservedWord::LParen)) => {
                        let acc: Vec<AST> = Vec::new();
                        assert(trees(acc@) =~= Seq::<Tree>::empty());
                        self.fn_params(x, acc)
                    },
                    _ => Err(ParseError::ExpectLParen),
                }
            },
            _ => Err(ParseError::ExpectIdentifier),
        }
    }

    fn fn_params(&mut self, name: String, acc: Vec<AST>) -> (r: Result<AST, ParseError>)
        requires
            old(self).wf(),
        ensures
            final(self).moved(old(self), r is Ok),
            final(self).gives(r, rule_at(Rule::FnParams(name@, trees(acc@)), old(self).toks(), old(self).pos())),
        decreases (old(self).toks().len() - old(self).pos()) as nat, 13nat,
    {
        proof {
            self.lemma_pos();
            assert(AST::Empty.tree() == Tree::Empty);
        }
        let ghost ts = self.toks();
        let ghost start = self.pos();
        let mut items = acc;
        let ghost expected = rule_at(Rule::FnParams(name@, trees(items@)), ts, start);
        loop
            invariant
                expected == rule_at(Rule::FnParams(name@, trees(items@)), ts, self.pos()),
                expected == rule_at(Rule::FnParams(name@, trees(acc@)), old(self).toks(), old(self).pos()),
                self.wf(),
                self.toks() == ts,
                ts == old(self).toks(),
                start == old(self).pos(),
                0 <= start <= self.pos() <= ts.len(),
            decreases ts.len() - self.pos(),
        {
            let ghost p = self.pos();
            match self.take() {
                None => {
                    return Err(ParseError::ExpectedRParen);
                },
                Some(Token::ReservedWord(ReservedWord::RParen)) => {
                    if items.len() == 0 {
                        return self.fn_body(name, items);
                    }
                    return Err(ParseError::ExpectIdentifier);
                },
                Some(Token::Identifier(x)) => {
                    let ty = match self.take() {
                        Some(Token::ReservedWord(ReservedWord::Collon)) => {
                            match self.take() {
                                Some(Token::Identifier(t)) => Type::Id(t),
                                _ => {
                                    return Err(ParseError::ExpectIdentifier);
                                },
                            }
                        },
                        Some(_) => {
                            self.back();
                            Type::Untyped
                        },
                        None => Type::Untyped,
                    };
                    let v = AST::Variable(x, ty, Box::new(AST::Empty));
                    assert(param_type(ts, p + 1) == Ok::<(TypeView, int), ParseError>(
                        (ty@, self.pos()),
                    ));
                    let ghost before = trees(items@);
                    assert(AST::Empty.tree() == Tree::Empty);
                    assert(v.tree() == param(x@, ty@));
                    items.push(v);
                    assert(trees(items@) =~= before.push(param(x@, ty@)));
                    match self.take() {
                        None => {
                            return Err(ParseError::ExpectedRParen);
                        },
                        Some(Token::Operator(Operator::Comma)) => {},
                        Some(Token::ReservedWord(ReservedWord::RParen)) => {
                            return self.fn_body(name, items);
                        },
                        Some(_) => {
                            return Err(ParseError::UnexpectedToken);
                        },
                    }
                },
                Some(_) => {
                    return Err(ParseError::ExpectIdentifier);
                },
            }
        }
    }

    fn fn_body(&mut self, name: String, params: Vec<AST>) -> (r: Result<AST, ParseError>)
        requires
            old(self).wf(),
        ensures
            final(self).moved(old(self), r is Ok),
            final(self).gives(r, rule_at(Rule::FnBody(name@, trees(params@)), old(self).toks(), old(self).pos())),
        decreases (old(self).toks().len() - old(self).pos()) as nat, 13nat,
    {
        proof {
            self.lemma_pos();
        }
        match self.statement() {
            Ok(b) => {
                let body = Box::new(b);
                proof {
                    lemma_function_tree(name, params, body);
                }
                Ok(AST::Function(name, params, body))
            },
            Err(e) => Err(e),
        }
    }

    fn loop_expr(&mut self) -> (r: Result<AST, ParseError>)
        requires
            old(self).wf(),
        ensures
            final(self).moved(old(self), r is Ok),
            final(self).gives(r, rule_at(Rule::Loop, old(self).toks(), old(self).pos())),
        decreases (old(self).toks().len() - old(self).pos()) as nat, 13nat,
    {
        proof {
            self.lemma_pos();
        }
        match self.statement() {
            Ok(b) => Ok(AST::Loop(Box::new(b))),
            Err(e) => Err(e),
        }
    }

    fn if_expr(&mut self) -> (r: Result<AST, ParseError>)
        requires
            old(self).wf(),
        ensures
            final(self).moved(old(self), r is Ok),
            final(self).gives(r, rule_at(Rule::If, old(self).toks(), old(self).pos())),
        decreases (old(self).toks().len() - old(self).pos()) as nat, 13nat,
    {
        proof {
            self.lemma_pos();
            assert(AST::Empty.tree() == Tree::Empty);
        }
        let c = match self.expression() {
            Ok(c) => c,
            Err(e) => {
                return Err(e);
            },
        };
        let t = match self.statement() {
            Ok(t) => t,
            Err(e) => {
                return Err(e);
            },
        };
        match self.take() {
            Some(Token::ReservedWord(ReservedWord::Else)) => {
                match self.statement() {
                    Ok(e) => Ok(AST::If(Box::new(c), Box::new(t), Box::new(e))),
                    Err(e) => Err(e),
                }
            },
            Some(_) => {
                self.back();
                Ok(AST::If(Box::new(c), Box::new(t), Box::new(AST::Empty)))
            },
            None => Ok(AST::If(Box::new(c), Box::new(t), Box::new(AST::Empty))),
        }
    }

    fn paren_expr(&mut self) -> (r: Result<AST, ParseError>)
        requires
            old(self).wf(),
        ensures
            final(self).moved(old(self), r is Ok),
            final(self).gives(r, rule_at(Rule::Paren, old(self).toks(), old(self).pos())),
        decreases (old(self).toks().len() - old(self).pos()) as nat, 13nat,
    {
        proof {
            self.lemma_pos();
        }
        let ghost ts = self.toks();
        let ghost p = self.pos();
        let tree = match self.expression() {
            Ok(t) => t,
            Err(e) => {
                return Err(e);
            },
        };
        match self.take() {
            Some(Token::ReservedWord(ReservedWord::RParen)) => Ok(tree),
            _ => Err(ParseError::ExpectedRParen),
        }
    }

    fn product(&mut self) -> (r: Result<AST, ParseError>)
        requires
            old(self).wf(),
        ensures
            final(self).moved(old(self), r is Ok),
            final(self).gives(r, rule_at(Rule::Product, old(self).toks(), old(self).pos())),
        decreases (old(self).toks().len() - old(self).pos()) as nat, 2nat,
    {
        proof {
            self.lemma_pos();
        }
        let ghost ts = self.toks();
        let ghost start = self.pos();
        let mut tree1 = match self.factor() {
            Ok(t) => t,
            Err(e) => {
                return Err(e);
            },
        };
        loop
            invariant
                self.wf(),
                self.toks() == ts,
                ts == old(self).toks(),
                start == old(self).pos(),
                0 <= start <= self.pos() <= ts.len(),
                start < ts.len() ==> self.pos() > start,
                rule_at(Rule::Product, ts, start) == rule_at(Rule::ProductRest(tree1.tree()), ts, self.pos()),
            decreases ts.len() - self.pos(),
        {
            match self.take() {
                None => {
                    return Ok(tree1);
                },
                Some(Token::Operator(Operator::Mul)) => {
                    match self.factor() {
                        Ok(t2) => {
                            tree1 = AST::Binary(Operator::Mul, Box::new(tree1), Box::new(t2));
                        },
                        Err(e) => {
                            return Err(e);
                        },
                    }
                },
                Some(Token::Operator(Operator::Div)) => {
                    match self.factor() {
                        Ok(t2) => {
                            tree1 = AST::Binary(Operator::Div, Box::new(tree1), Box::new(t2));
                        },
                        Err(e) => {
                            return Err(e);
                        },
                    }
                },
                Some(_) => {
                    self.back();
                    return Ok(tree1);
                },
            }
        }
    }

    fn sum(&mut self) -> (r: Result<AST, ParseError>)
        requires
            old(self).wf(),
        ensures
            final(self).moved(old(self), r is Ok),
            final(self).gives(r, rule_at(Rule::Sum, old(self).toks(), old(self).pos())),
        decreases (old(self).toks().len() - old(self).pos()) as nat, 4nat,
    {
        proof {
            self.lemma_pos();
        }
        let ghost ts = self.toks();
        let ghost start = self.pos();
        let mut tree1 = match self.product() {
            Ok(t) => t,
            Err(e) => {
                return Err(e);
            },
        };
        loop
            invariant
                self.wf(),
                self.toks() == ts,
                ts == old(self).toks(),
                start == old(self).pos(),
                0 <= start <= self.pos() <= ts.len(),
                start < ts.len() ==> self.pos() > start,
                rule_at(Rule::Sum, ts, start) == rule_at(Rule::SumRest(tree1.tree()), ts, self.pos()),
            decreases ts.len() - self.pos(),
        {
            match self.take() {
                None => {
                    return Ok(tree1);
                },
                Some(Token::Operator(Operator::Add)) => {
                    match self.product() {
                        Ok(t2) => {
                            tree1 = AST::Binary(Operator::Add, Box::new(tree1), Box::new(t2));
                        },
                        Err(e) => {
                            return Err(e);
                        },
                    }
                },
                Some(Token::Operator(Operator::Sub)) => {
                    match self.product() {
                        Ok(t2) => {
                            tree1 = AST::Binary(Operator::Sub, Box::new(tree1), Box::new(t2));
                        },
                        Err(e) => {
                            return Err(e);
                        },
                    }
                },
                Some(_) => {
                    self.back();
                    return Ok(tree1);
                },
            }
        }
    }

    fn bit(&mut self) -> (r: Result<AST, ParseError>)
        requires
            old(self).wf(),
        ensures
            final(self).moved(old(self), r is Ok),
            final(self).gives(r, rule_at(Rule::Bit, old(self).toks(), old(self).pos())),
        decreases (old(self).toks().len() - old(self).pos()) as nat, 6nat,
    {
        proof {
            self.lemma_pos();
        }
        let ghost ts = self.toks();
        let ghost start = self.pos();
        let mut tree1 = match self.sum() {
            Ok(t) => t,
            Err(e) => {
                return Err(e);
            },
        };
        loop
            invariant
                self.wf(),
                self.toks() == ts,
                ts == old(self).toks(),
                start == old(self).pos(),
                0 <= start <= self.pos() <= ts.len(),
                start < ts.len() ==> self.pos() > start,
                rule_at(Rule::Bit, ts, start) == rule_at(Rule::BitRest(tree1.tree()), ts, self.pos()),
            decreases ts.len() - self.pos(),
        {
            match self.take() {
                None => {
                    return Ok(tree1);
                },
                Some(Token::Operator(Operator::And)) => {
                    match self.sum() {
                        Ok(t2) => {
                            tree1 = AST::Binary(Operator::And, Box::new(tree1), Box::new(t2));
                        },
                        Err(e) => {
                            return Err(e);
                        },
                    }
                },
                Some(Token::Operator(Operator::Or)) => {
                    match self.sum() {
                        Ok(t2) => {
                            tree1 = AST::Binary(Operator::Or, Box::new(tree1), Box::new(t2));
                        },
                        Err(e) => {
                            return Err(e);
                        },
                    }
                },
                Some(_) => {
                    self.back();
                    return Ok(tree1);
                },
            }
        }
    }

    fn compare(&mut self) -> (r: Result<AST, ParseError>)
        requires
            old(self).wf(),
        ensures
            final(self).moved(old(self), r is Ok),
            final(self).gives(r, rule_at(Rule::Compare, old(self).toks(), old(self).pos())),
        decreases (old(self).toks().len() - old(self).pos()) as nat, 7nat,
    {
        proof {
            self.lemma_pos();
        }
        let tree1 = match self.bit() {
            Ok(t) => t,
            Err(e) => {
                return Err(e);
            },
        };
        match self.take() {
            Some(Token::Operator(o)) => {
                if is_compare_op(o) {
                    match self.bit() {
                        Ok(tree2) => Ok(AST::Binary(o, Box::new(tree1), Box::new(tree2))),
                        Err(e) => Err(e),
                    }
                } else {
                    self.back();
                    Ok(tree1)
                }
            },
            Some(_) => {
                self.back();
                Ok(tree1)
            },
            None => Ok(tree1),
        }
    }

    fn assign(&mut self) -> (r: Result<AST, ParseError>)
        requires
            old(self).wf(),
        ensures
            final(self).moved(old(self), r is Ok),
            final(self).gives(r, rule_at(Rule::Assign, old(self).toks(), old(self).pos())),
        decreases (old(self).toks().len() - old(self).pos()) as nat, 9nat,
    {
        proof {
            self.lemma_pos();
        }
        let ghost ts = self.toks();
        let ghost start = self.pos();
        let mut tree1 = match self.compare() {
            Ok(t) => t,
            Err(e) => {
                return Err(e);
            },
        };
        loop
            invariant
                self.wf(),
                self.toks() == ts,
                ts == old(self).toks(),
                start == old(self).pos(),
                0 <= start <= self.pos() <= ts.len(),
                start < ts.len() ==> self.pos() > start,
                rule_at(Rule::Assign, ts, start) == rule_at(Rule::AssignRest(tree1.tree()), ts, self.pos()),
            decreases ts.len() - self.pos(),
        {
            match self.take() {
                None => {
                    return Ok(tree1);
                },
                Some(Token::Operator(Operator::Assign)) => {
                    match self.assign() {
                        Ok(t2) => {
                            tree1 = AST::Binary(Operator::Assign, Box::new(tree1), Box::new(t2));
                        },
                        Err(e) => {
                            return Err(e);
                        },
                    }
                },
                Some(_) => {
                    self.back();
                    return Ok(tree1);
                },
            }
        }
    }

    fn expression(&mut self) -> (r: Result<AST, ParseError>)
        requires
            old(self).wf(),
        ensures
            final(self).moved(old(self), r is Ok),
            final(self).gives(r, rule_at(Rule::Expression, old(self).toks(), old(self).pos())),
        decreases (old(self).toks().len() - old(self).pos()) as nat, 10nat,
    {
        proof {
            self.lemma_pos();
        }
        self.assign()
    }

    fn statement(&mut self) -> (r: Result<AST, ParseError>)
        requires
            old(self).wf(),
        ensures
            final(self).moved(old(self), r is Ok),
            final(self).gives(r, rule_at(Rule::Statement, old(self).toks(), old(self).pos())),
        decreases (old(self).toks().len() - old(self).pos()) as nat, 12nat,
    {
        proof {
            self.lemma_pos();
        }
        let ghost ts = self.toks();
        let ghost start = self.pos();
        match self.take() {
            Some(Token::ReservedWord(ReservedWord::LBrace)) => {
                let mut vec: Vec<AST> = Vec::new();
                assert(trees(vec@) =~= Seq::<Tree>::empty());
                loop
                    invariant
                        self.wf(),
                        self.toks() == ts,
                        ts == old(self).toks(),
                        start == old(self).pos(),
                        0 <= start < self.pos() <= ts.len(),
                        rule_at(Rule::Statement, ts, start) == rule_at(Rule::Block(trees(vec@)), ts, self.pos()),
                    decreases ts.len() - self.pos(),
                {
                    match self.take() {
                        None => {
                            return Err(ParseError::ExpectedRBrace);
                        },
                        Some(Token::ReservedWord(ReservedWord::RBrace)) => {
                            proof {
                                lemma_statement_tree(vec);
                            }
                            return Ok(AST::Statement(vec));
                        },
                        Some(_) => {
                            self.back();
                            match self.expression() {
                                Ok(e) => {
                                    let ghost before = trees(vec@);
                                    vec.push(e);
                                    assert(trees(vec@) =~= before.push(e.tree()));
                                },
                                Err(e) => {
                                    return Err(e);
                                },
                            }
                        },
                    }
                }
            },
            Some(_) => {
                self.back();
                self.expression()
            },
            None => self.expression(),
        }
    }

    /// Parses a whole token sequence into a `Statement` of its top-level
    /// statements; an end marker stops the parse.
    pub fn parse(&mut self, toks: Vec<Token>) -> (r: Result<AST, ParseError>)
        ensures
            match parse_tokens(token_views(toks@)) {
                Ok(t) => r matches Ok(a) && a.tree() == t,
                Err(e) => r == Err::<AST, ParseError>(e),
            },
            r matches Ok(a) ==> a is Statement,
            toks@.len() == 0 ==> (r matches Ok(AST::Statement(v)) && v@.len() == 0),
    {
        let ghost ts = token_views(toks@);
        self.buf = Buffer::new(toks);
        let mut vec: Vec<AST> = Vec::new();
        assert(trees(vec@) =~= Seq::<Tree>::empty());
        loop
            invariant
                self.wf(),
                self.toks() == ts,
                0 <= self.pos() <= ts.len(),
                parse_tokens(ts) == program_at(ts, self.pos(), trees(vec@)),
                ts == token_views(toks@),
                ts.len() == toks@.len(),
                ts.len() == 0 ==> vec@.len() == 0,
            decreases ts.len() - self.pos(),
        {
            match self.take() {
                None => {
                    proof {
                        lemma_statement_tree(vec);
                    }
                    return Ok(AST::Statement(vec));
                },
                Some(Token::EOF) => {
                    proof {
                        lemma_statement_tree(vec);
                    }
                    return Ok(AST::Statement(vec));
                },
                Some(_) => {
                    self.back();
                    match self.statement() {
                        Ok(s) => {
                            let ghost before = trees(vec@);
                            vec.push(s);
                            assert(trees(vec@) =~= before.push(s.tree()));
                        },
                        Err(e) => {
                            return Err(e);
                        },
                    }
                },
            }
        }
    }
}

} // verus!
