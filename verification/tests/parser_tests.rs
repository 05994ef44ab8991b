use minicomp::ast::{Expr, Op, Program, Stmt};
use minicomp::parser::{parse_program, ParsingError, TokenSource};
use minicomp::scanner::{NumberLit, Scanner, Token};

fn parse(src: &str) -> Result<Program, ParsingError> {
    let tokens = Scanner::new(src.chars().collect()).scan_all().unwrap();
    parse_program(&mut TokenSource::new(tokens))
}

fn cnum(whole: i64) -> Expr {
    Expr::Constant(NumberLit { whole, frac: Vec::new() })
}

#[test]
fn parses_precedence_and_associativity() {
    let p = parse("fun main(){ return 1+2*3; }").unwrap();
    assert_eq!(p.functions.len(), 1);
    assert_eq!(p.functions[0].name, "main");
    assert_eq!(
        p.functions[0].body,
        vec![Stmt::Return(Some(Expr::Binary(
            Box::new(cnum(1)),
            Op::Add,
            Box::new(Expr::Binary(Box::new(cnum(2)), Op::Mul, Box::new(cnum(3)))),
        )))]
    );
}

#[test]
fn parses_assignment_then_return() {
    let p = parse("fun f(){ let x = 5; return x; }").unwrap();
    assert_eq!(p.functions.len(), 1);
    assert_eq!(
        p.functions[0].body,
        vec![
            Stmt::Assignment(String::from("x"), cnum(5)),
            Stmt::Return(Some(Expr::Symbol(String::from("x")))),
        ]
    );
}

#[test]
fn subtraction_is_left_associative() {
    let p = parse("fun f(){ return 1-2-3; }").unwrap();
    assert_eq!(
        p.functions[0].body,
        vec![Stmt::Return(Some(Expr::Binary(
            Box::new(Expr::Binary(Box::new(cnum(1)), Op::Sub, Box::new(cnum(2)))),
            Op::Sub,
            Box::new(cnum(3)),
        )))]
    );
}

#[test]
fn parses_prefix_minus() {
    let p = parse("fun f(){ return -1; }").unwrap();
    assert_eq!(
        p.functions[0].body,
        vec![Stmt::Return(Some(Expr::Unary(Op::Sub, Box::new(cnum(1)))))]
    );
}

#[test]
fn parses_call_with_arguments() {
    let p = parse("fun f(){ return g(1,2); }").unwrap();
    assert_eq!(
        p.functions[0].body,
        vec![Stmt::Return(Some(Expr::Call(
            String::from("g"),
            vec![Box::new(cnum(1)), Box::new(cnum(2))],
        )))]
    );
}

#[test]
fn parses_empty_call() {
    let p = parse("fun f(){ return g(); }").unwrap();
    assert_eq!(
        p.functions[0].body,
        vec![Stmt::Return(Some(Expr::Call(String::from("g"), Vec::new())))]
    );
}

#[test]
fn parentheses_group_without_a_node() {
    let p = parse("fun f(){ return (1+2)*3; }").unwrap();
    assert_eq!(
        p.functions[0].body,
        vec![Stmt::Return(Some(Expr::Binary(
            Box::new(Expr::Binary(Box::new(cnum(1)), Op::Add, Box::new(cnum(2)))),
            Op::Mul,
            Box::new(cnum(3)),
        )))]
    );
}

#[test]
fn semicolon_is_advisory_before_closing_brace() {
    // the closing brace is consumed as the unchecked statement terminator
    let p = parse("fun f(){ return 1 }").unwrap();
    assert_eq!(p.functions[0].body, vec![Stmt::Return(Some(cnum(1)))]);
}

#[test]
fn missing_separator_consumes_one_token() {
    // after `let x = 1`, the following `let` is eaten as the terminator,
    // so the statement loop then stumbles over the identifier
    let r = parse("fun f(){ let x = 1 let y = 2; }");
    assert_eq!(
        r,
        Err(ParsingError::UnexpectedToken(Token::Identifier(String::from("y"))))
    );
}

#[test]
fn function_name_must_be_identifier() {
    let r = parse("fun 1(){}");
    assert_eq!(
        r,
        Err(ParsingError::UnexpectedToken(Token::Number(NumberLit {
            whole: 1,
            frac: Vec::new()
        })))
    );
}

#[test]
fn truncated_declaration_fails() {
    assert_eq!(parse("fun f("), Err(ParsingError::UnexpectedEndOfInput));
}

#[test]
fn parameters_are_rejected() {
    let r = parse("fun f(a){}");
    assert_eq!(
        r,
        Err(ParsingError::UnexpectedToken(Token::Identifier(String::from("a"))))
    );
}

#[test]
fn empty_input_is_empty_program() {
    let p = parse("").unwrap();
    assert_eq!(p.functions.len(), 0);
}

#[test]
fn parses_two_functions_in_order() {
    let p = parse("fun a(){} fun b(){}").unwrap();
    assert_eq!(p.functions.len(), 2);
    assert_eq!(p.functions[0].name, "a");
    assert_eq!(p.functions[1].name, "b");
}
