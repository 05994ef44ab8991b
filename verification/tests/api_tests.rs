use minicomp::ast::Program;
use minicomp::compile::Compiler;
use minicomp::parser::{infix_binding_power, prefix_binding_power, TokenSource};
use minicomp::scanner::{Scanner, ScanningProduct, Token};

#[test]
fn scanner_peek_does_not_consume() {
    let mut s = Scanner::new("ab".chars().collect());
    assert_eq!(s.peek(), Some('a'));
    assert_eq!(s.peek(), Some('a'));
    assert_eq!(s.advance(), Some('a'));
    assert_eq!(s.peek(), Some('b'));
    assert_eq!(s.advance(), Some('b'));
    assert_eq!(s.advance(), None);
}

#[test]
fn keyword_table_is_case_insensitive() {
    let s = Scanner::new(Vec::new());
    assert_eq!(s.keyword("Return"), Some(Token::Return));
    assert_eq!(s.keyword("FUN"), Some(Token::Fun));
    assert_eq!(s.keyword("let"), Some(Token::Let));
    assert_eq!(s.keyword("letx"), None);
    assert_eq!(s.keyword(""), None);
}

#[test]
fn scan_token_reports_skips_and_tokens() {
    let mut s = Scanner::new(" +".chars().collect());
    assert_eq!(s.scan_token(), Ok(ScanningProduct::Skip));
    assert_eq!(s.scan_token(), Ok(ScanningProduct::Token(Token::Plus)));
    assert_eq!(s.scan_token(), Ok(ScanningProduct::Finished));
}

#[test]
fn binding_powers_match_the_grammar() {
    assert_eq!(infix_binding_power(&Token::Plus), Some((1, 2)));
    assert_eq!(infix_binding_power(&Token::Minus), Some((1, 2)));
    assert_eq!(infix_binding_power(&Token::Star), Some((3, 4)));
    assert_eq!(infix_binding_power(&Token::Slash), Some((3, 4)));
    assert_eq!(infix_binding_power(&Token::Comma), None);
    assert_eq!(prefix_binding_power(&Token::Minus), Some(((), 5)));
    assert_eq!(prefix_binding_power(&Token::Plus), None);
}

#[test]
fn token_source_peeks_one_ahead() {
    let mut ts = TokenSource::new(vec![Token::Plus, Token::Minus]);
    assert_eq!(ts.peek(), Some(&Token::Plus));
    assert_eq!(ts.next(), Some(Token::Plus));
    assert_eq!(ts.next(), Some(Token::Minus));
    assert_eq!(ts.next(), None);
}

#[test]
fn variable_offsets_are_stable_on_rereference() {
    let mut c = Compiler::new();
    let x = String::from("x");
    let y = String::from("y");
    assert_eq!(c.get_var_offset(&x), 0);
    assert_eq!(c.get_var_offset(&y), 1);
    assert_eq!(c.get_var_offset(&x), 0);
    assert_eq!(c.get_var_offset(&y), 1);
}

#[test]
fn new_program_is_empty() {
    assert_eq!(Program::new().functions.len(), 0);
}
