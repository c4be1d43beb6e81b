use bok::token::Token;
use bok::tokenizer::Tokenizer;

fn lex(s: &str) -> Vec<Token> {
    Tokenizer::new().tokenize(s).unwrap()
}

fn show(s: &str) -> String {
    format!("{:?}", lex(s))
}

#[test]
fn empty_source_has_no_tokens() {
    assert_eq!(lex("").len(), 0);
    assert_eq!(lex("  \n\t ").len(), 0);
}

#[test]
fn end_marker_is_returned_at_the_end() {
    let mut t = Tokenizer::new();
    let r = t.gettok().unwrap();
    assert!(matches!(r, Token::EOF));
}

#[test]
fn lone_digit_is_one_value() {
    assert_eq!(show("7"), "[Value(Int, Int(7))]");
    assert_eq!(show("1"), "[Value(Int, Int(1))]");
}

#[test]
fn two_character_operators() {
    assert_eq!(
        show("!= <= >= =="),
        "[Operator(NE), Operator(LTE), Operator(GTE), Operator(Equal)]"
    );
    assert_eq!(show("a<=b"), "[Identifier(\"a\"), Operator(LTE), Identifier(\"b\")]");
}

#[test]
fn lone_equals_is_assign() {
    assert_eq!(show("="), "[Operator(Assign)]");
    assert_eq!(show("=a"), "[Operator(Assign), Identifier(\"a\")]");
    assert_eq!(show("+="), "[Operator(Add), Operator(Assign)]");
}

#[test]
fn single_character_operators() {
    assert_eq!(
        show("+-*/&|<>!,"),
        "[Operator(Add), Operator(Sub), Operator(Mul), Operator(Div), Operator(And), Operator(Or), Operator(LT), Operator(GT), Operator(Not), Operator(Comma)]"
    );
}

#[test]
fn keywords_and_punctuation() {
    assert_eq!(
        show("if else fn let loop ( ) { } : ;"),
        "[ReservedWord(If), ReservedWord(Else), ReservedWord(FN), ReservedWord(Let), ReservedWord(Loop), ReservedWord(LParen), ReservedWord(RParen), ReservedWord(LBrace), ReservedWord(RBrace), ReservedWord(Collon), ReservedWord(SemiCollon)]"
    );
    assert_eq!(show("iffy looping"), "[Identifier(\"iffy\"), Identifier(\"looping\")]");
}

#[test]
fn if_scenario_tokens() {
    assert_eq!(
        show("if a > 0 {a} else {-a}"),
        "[ReservedWord(If), Identifier(\"a\"), Operator(GT), Value(Int, Int(0)), ReservedWord(LBrace), Identifier(\"a\"), ReservedWord(RBrace), ReservedWord(Else), ReservedWord(LBrace), Operator(Sub), Identifier(\"a\"), ReservedWord(RBrace)]"
    );
}

#[test]
fn one_token_per_lexeme() {
    assert_eq!(lex("let  x=1").len(), 4);
    assert_eq!(lex("x1y2 + 30").len(), 3);
}

#[test]
fn spelled_tokens_lex_back() {
    let first = show("if a>=10{b=a*2}");
    let again = show("if a >= 10 { b = a * 2 }");
    assert_eq!(first, again);
}

#[test]
fn unknown_character_is_error_token() {
    assert_eq!(show("#"), "[Error]");
    assert_eq!(show("a # b"), "[Identifier(\"a\"), Error, Identifier(\"b\")]");
}

#[test]
fn bad_numeral_is_fatal() {
    let e = Tokenizer::new().tokenize("10x").unwrap_err();
    assert_eq!(e.index, 0);
    let e = Tokenizer::new().tokenize("1 99999999999999999999").unwrap_err();
    assert_eq!(e.index, 2);
    assert_eq!(e.error, "Invalid Integer Literal");
}

#[test]
fn largest_literal_is_accepted() {
    assert_eq!(show("9223372036854775807"), "[Value(Int, Int(9223372036854775807))]");
    assert!(Tokenizer::new().tokenize("9223372036854775808").is_err());
}

#[test]
fn nul_character_ends_the_text() {
    assert_eq!(show("a\0b"), "[Identifier(\"a\")]");
}

#[test]
fn fresh_tokenizer_ends_at_once() {
    let mut t = Tokenizer::new();
    assert!(matches!(t.gettok().unwrap(), Token::EOF));
    assert!(matches!(t.gettok().unwrap(), Token::EOF));
}

#[test]
fn tokens_accumulate_across_calls() {
    let mut t = Tokenizer::new();
    assert_eq!(t.tokenize("a").unwrap().len(), 1);
    assert_eq!(t.tokenize("b c").unwrap().len(), 1);
}

#[test]
fn decimal_parse() {
    assert_eq!(bok::tokenizer::parse_decimal(&vec!['4', '2']), Some(42));
    assert_eq!(bok::tokenizer::parse_decimal(&vec!['4', 'x']), None);
}
