use markup::lexer::{Lexer, LexingError, Token};

fn b(s: &str) -> Vec<u8> {
    s.as_bytes().to_vec()
}

#[test]
fn number_literal() {
    let source = "123";
    let mut lexer = Lexer::new(source.as_bytes());
    let token = lexer.scan_tokens();
    assert_eq!(token, Ok(vec![Token::Number(123), Token::EOF]));
}

#[test]
fn string_literal() {
    let source = r#""this is a string literal""#;
    let mut lexer = Lexer::new(source.as_bytes());
    let token = lexer.scan_tokens();
    assert_eq!(
        token,
        Ok(vec![Token::String(b("this is a string literal")), Token::EOF])
    );
}

#[test]
fn unclosed_string_literal() {
    let source = r#""unclosed string"#;
    let mut lexer = Lexer::new(source.as_bytes());
    let tokens = lexer.scan_tokens();
    assert_eq!(
        tokens,
        Err(LexingError::UnclosedStringLiteral {
            start: 0,
            end: lexer.current
        })
    )
}

#[test]
fn multiline_string_literal() {
    let source = "\"a multiline\nstring literal\"";
    let mut lexer = Lexer::new(source.as_bytes());
    let token = lexer.scan_tokens();
    assert_eq!(
        token,
        Ok(vec![Token::String(b("a multiline\nstring literal")), Token::EOF])
    )
}

#[test]
fn identifier() {
    let source = "js-code_block";
    let mut lexer = Lexer::new(source.as_bytes());
    let token = lexer.scan_tokens();
    assert_eq!(token, Ok(vec![Token::Identifier(b("js-code_block")), Token::EOF]));
}

#[test]
fn punctuation() {
    let source = " ( ){}[ ] , ..: ";
    let mut lexer = Lexer::new(source.as_bytes());
    let tokens = lexer.scan_tokens();
    assert_eq!(
        tokens,
        Ok(vec![
            Token::LeftParen,
            Token::RightParen,
            Token::LeftBrace,
            Token::RightBrace,
            Token::LeftBracket,
            Token::RightBracket,
            Token::Comma,
            Token::DoubleDot,
            Token::Colon,
            Token::EOF
        ])
    )
}

#[test]
fn tokens_end_with_single_eof() {
    let source = r#"row(reversed: "true") { p { "first" } "second" }"#;
    let mut lexer = Lexer::new(source.as_bytes());
    let tokens = lexer.scan_tokens().unwrap();
    assert_eq!(tokens.last(), Some(&Token::EOF));
    assert_eq!(tokens.iter().filter(|t| matches!(t, Token::EOF)).count(), 1);
}

#[test]
fn unrecognized_character() {
    let source = "div!";
    let mut lexer = Lexer::new(source.as_bytes());
    let tokens = lexer.scan_tokens();
    assert_eq!(
        tokens,
        Err(LexingError::UnrecognizedCharacter {
            character: '!',
            position: 4
        })
    );
}

#[test]
fn number_overflow() {
    let source = "99999999999999";
    let mut lexer = Lexer::new(source.as_bytes());
    let tokens = lexer.scan_tokens();
    assert_eq!(tokens, Err(LexingError::NumberOverflow { start: 0, end: 14 }));
}

#[test]
fn dot_and_double_dot() {
    let source = ". ..";
    let mut lexer = Lexer::new(source.as_bytes());
    let tokens = lexer.scan_tokens();
    assert_eq!(tokens, Ok(vec![Token::Dot, Token::DoubleDot, Token::EOF]));
}

#[test]
fn empty_source() {
    let mut lexer = Lexer::new(b"");
    let tokens = lexer.scan_tokens();
    assert_eq!(tokens, Ok(vec![Token::EOF]));
}
