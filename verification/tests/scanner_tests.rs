use minicomp::scanner::{NumberLit, Scanner, ScanningError, Token};

fn scan(src: &str) -> Result<Vec<Token>, ScanningError> {
    Scanner::new(src.chars().collect()).scan_all()
}

fn num(whole: i64) -> Token {
    Token::Number(NumberLit { whole, frac: Vec::new() })
}

#[test]
fn scans_simple_sum() {
    assert_eq!(scan("1+2").unwrap(), vec![num(1), Token::Plus, num(2)]);
}

#[test]
fn skips_line_comment() {
    assert_eq!(scan("// comment\n1").unwrap(), vec![num(1)]);
}

#[test]
fn unterminated_comment_fails() {
    assert_eq!(scan("// never ends"), Err(ScanningError::UnexpectedEndOfFile));
}

#[test]
fn rescanning_is_deterministic() {
    let src = "fun main(){ let x = 1+2*3; return x; }";
    assert_eq!(scan(src).unwrap(), scan(src).unwrap());
}

#[test]
fn scans_punctuation() {
    assert_eq!(
        scan("(){}=,;+-*/").unwrap(),
        vec![
            Token::LeftParen,
            Token::RightParen,
            Token::LeftBrace,
            Token::RightBrace,
            Token::Equals,
            Token::Comma,
            Token::Semicolon,
            Token::Plus,
            Token::Minus,
            Token::Star,
            Token::Slash,
        ]
    );
}

#[test]
fn keywords_are_case_insensitive() {
    assert_eq!(
        scan("RETURN Fun lEt").unwrap(),
        vec![Token::Return, Token::Fun, Token::Let]
    );
}

#[test]
fn scans_identifier_with_underscore_and_digits() {
    assert_eq!(
        scan("foo_1").unwrap(),
        vec![Token::Identifier(String::from("foo_1"))]
    );
}

#[test]
fn scans_fractional_literal() {
    assert_eq!(
        scan("1.5").unwrap(),
        vec![Token::Number(NumberLit { whole: 1, frac: vec!['5'] })]
    );
}

#[test]
fn trailing_dot_keeps_empty_fraction() {
    assert_eq!(
        scan("7.").unwrap(),
        vec![Token::Number(NumberLit { whole: 7, frac: Vec::new() })]
    );
}

#[test]
fn unexpected_character_fails() {
    assert_eq!(scan("@"), Err(ScanningError::UnexpectedCharacter('@')));
}

#[test]
fn oversized_literal_fails() {
    assert_eq!(scan("9223372036854775808"), Err(ScanningError::InvalidLiteral));
}

#[test]
fn largest_literal_scans() {
    assert_eq!(scan("9223372036854775807").unwrap(), vec![num(i64::MAX)]);
}

#[test]
fn whitespace_is_skipped() {
    assert_eq!(scan("  1 \t 2 \r\n 3 ").unwrap(), vec![num(1), num(2), num(3)]);
}

#[test]
fn empty_input_scans_to_nothing() {
    assert_eq!(scan("").unwrap(), Vec::<Token>::new());
}

#[test]
fn slash_without_second_slash_is_division() {
    assert_eq!(scan("1/2").unwrap(), vec![num(1), Token::Slash, num(2)]);
}
