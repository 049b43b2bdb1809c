use sexpvm::parser::{parse, tokenize, ParseFault, SExp, ShapeFault, Token};

#[test]
fn parse_number() {
    let input = "5";
    let result = parse(input);

    assert_eq!(result, Ok(SExp::ConstNumber(5)));
}

#[test]
fn parse_negative_number() {
    assert_eq!(parse("-5"), Ok(SExp::ConstNumber(-5)));
}

#[test]
fn parse_identifier() {
    assert_eq!(parse("foo"), Ok(SExp::Ident("foo".to_string())));
    assert_eq!(parse("-"), Ok(SExp::Ident("-".to_string())));
}

#[test]
fn parse_digits_then_letters_is_identifier() {
    assert_eq!(parse("12a"), Ok(SExp::Ident("12a".to_string())));
}

#[test]
fn parse_list() {
    assert_eq!(
        parse("(+ 1 2)"),
        Ok(SExp::List(vec![
            SExp::Ident("+".to_string()),
            SExp::ConstNumber(1),
            SExp::ConstNumber(2),
        ]))
    );
}

#[test]
fn parse_brackets_open_lists_too() {
    assert_eq!(
        parse("[1 (2)]"),
        Ok(SExp::List(vec![
            SExp::ConstNumber(1),
            SExp::List(vec![SExp::ConstNumber(2)]),
        ]))
    );
}

#[test]
fn parse_empty_list() {
    assert_eq!(parse("()"), Ok(SExp::List(vec![])));
}

#[test]
fn tokenize_stream() {
    assert_eq!(
        tokenize("(add 1 -2)"),
        Ok(vec![
            Token::Open,
            Token::Ident("add".to_string()),
            Token::Num(1),
            Token::Num(-2),
            Token::Close,
        ])
    );
}

#[test]
fn number_limits() {
    assert_eq!(parse("9223372036854775807"), Ok(SExp::ConstNumber(i64::MAX)));
    assert_eq!(parse("-9223372036854775808"), Ok(SExp::ConstNumber(i64::MIN)));
    assert_eq!(parse("9223372036854775808"), Err(ParseFault::NumberOutOfRange));
    assert_eq!(parse("-9223372036854775809"), Err(ParseFault::NumberOutOfRange));
}

#[test]
fn unbalanced_brackets_fault() {
    assert_eq!(parse("("), Err(ParseFault::Unbalanced));
    assert_eq!(parse(")"), Err(ParseFault::Unbalanced));
    assert_eq!(parse("(1 2"), Err(ParseFault::Unbalanced));
}

#[test]
fn empty_text_fault() {
    assert_eq!(parse(""), Err(ParseFault::Empty));
    assert_eq!(parse("   "), Err(ParseFault::Empty));
}

#[test]
fn trailing_text_fault() {
    assert_eq!(parse("5 6"), Err(ParseFault::TrailingText));
}

#[test]
fn expect_list_helper() {
    let l = SExp::List(vec![SExp::ConstNumber(1)]);
    assert_eq!(l.expect_list(), Ok(&vec![SExp::ConstNumber(1)]));
    assert_eq!(SExp::ConstNumber(1).expect_list(), Err(ShapeFault::ExpectedList));
}

#[test]
fn expect_ident_helper() {
    let i = SExp::Ident("x".to_string());
    assert_eq!(i.expect_ident(), Ok("x"));
    assert_eq!(SExp::Var(0).expect_ident(), Err(ShapeFault::ExpectedIdent));
}

#[test]
fn expect_var_helper() {
    assert_eq!(SExp::Var(3).expect_var(), Ok(3));
    assert_eq!(SExp::Ident("x".to_string()).expect_var(), Err(ShapeFault::ExpectedVar));
}
