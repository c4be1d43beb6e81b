use bok::ast::AST;
use bok::parser::{ParseError, Parser};
use bok::tokenizer::Tokenizer;

fn tree(s: &str) -> Result<AST, ParseError> {
    let toks = Tokenizer::new().tokenize(s).unwrap();
    Parser::new().parse(toks)
}

fn show(s: &str) -> String {
    format!("{:?}", tree(s).unwrap())
}

#[test]
fn empty_source_is_empty_statement() {
    assert_eq!(show(""), "Statement([])");
}

#[test]
fn lone_digit_tree() {
    assert_eq!(show("1"), "Statement([Value(Int, Int(1))])");
}

#[test]
fn unary_minus_binds_tighter_than_mul() {
    assert_eq!(
        show("-2*3"),
        "Statement([Binary(Mul, Unary(Sub, Value(Int, Int(2))), Value(Int, Int(3)))])"
    );
}

#[test]
fn assignment_is_right_associative() {
    assert_eq!(
        show("a = b = 1"),
        "Statement([Binary(Assign, Identifier(\"a\"), Binary(Assign, Identifier(\"b\"), Value(Int, Int(1))))])"
    );
}

#[test]
fn if_scenario_tree() {
    assert_eq!(
        show("if a > 0 {a} else {-a}"),
        "Statement([If(Binary(GT, Identifier(\"a\"), Value(Int, Int(0))), Statement([Identifier(\"a\")]), Statement([Unary(Sub, Identifier(\"a\"))]))])"
    );
}

#[test]
fn let_scenario_tree() {
    assert_eq!(
        show("let x = 1 + 2 * 3"),
        "Statement([Variable(\"x\", Untyped, Binary(Add, Value(Int, Int(1)), Binary(Mul, Value(Int, Int(2)), Value(Int, Int(3)))))])"
    );
}

#[test]
fn function_and_call_scenario_tree() {
    assert_eq!(
        show("fn add(a:Int, b:Int) { a + b } add(2,3)"),
        "Statement([Function(\"add\", [Variable(\"a\", Id(\"Int\"), Empty), Variable(\"b\", Id(\"Int\"), Empty)], Statement([Binary(Add, Identifier(\"a\"), Identifier(\"b\"))])), Call(\"add\", [Value(Int, Int(2)), Value(Int, Int(3))])])"
    );
}

#[test]
fn declaration_then_assignment_tree() {
    assert_eq!(
        show("let a = 0  a = 5"),
        "Statement([Variable(\"a\", Untyped, Value(Int, Int(0))), Binary(Assign, Identifier(\"a\"), Value(Int, Int(5)))])"
    );
}

#[test]
fn if_without_else_keeps_following_token() {
    assert_eq!(
        show("if 1 {2} 3"),
        "Statement([If(Value(Int, Int(1)), Statement([Value(Int, Int(2))]), Empty), Value(Int, Int(3))])"
    );
}

#[test]
fn comparison_and_bit_levels() {
    assert_eq!(
        show("a + 1 < b & c"),
        "Statement([Binary(LT, Binary(Add, Identifier(\"a\"), Value(Int, Int(1))), Binary(And, Identifier(\"b\"), Identifier(\"c\")))])"
    );
}

#[test]
fn parse_errors() {
    assert_eq!(tree("{ 1").unwrap_err(), ParseError::ExpectedRBrace);
    assert_eq!(tree("(1").unwrap_err(), ParseError::ExpectedRParen);
    assert_eq!(tree("let 1").unwrap_err(), ParseError::ExpectIdentifier);
    assert_eq!(tree("fn f 1").unwrap_err(), ParseError::ExpectLParen);
    assert_eq!(tree("#").unwrap_err(), ParseError::TokenTypeError);
    assert_eq!(tree("* 2").unwrap_err(), ParseError::UnexpectedToken);
    assert_eq!(tree("else").unwrap_err(), ParseError::UndefinedReservedWord);
    assert_eq!(ParseError::ExpectedRBrace.message(), "Expected '}'");
}

#[test]
fn missing_operand_is_an_error() {
    assert_eq!(tree("1 +").unwrap_err(), ParseError::UnexpectedToken);
    assert_eq!(tree("{ 1 * }").unwrap_err(), ParseError::UnexpectedToken);
    assert_eq!(tree("if 1").unwrap_err(), ParseError::UnexpectedToken);
}

#[test]
fn is_none_marks_missing_child() {
    assert!(AST::Empty.is_none());
    assert!(!tree("1").unwrap().is_none());
}
