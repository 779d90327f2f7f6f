use json_parser_rs::json::JsonNumber;
use json_parser_rs::lexer::{Lexer, Token};

#[test]
fn test_lexer_basic_tokens() {
    let mut lexer = Lexer::new("{}[],:");
    assert_eq!(lexer.next_token().unwrap(), Token::LeftBrace);
    assert_eq!(lexer.next_token().unwrap(), Token::RightBrace);
    assert_eq!(lexer.next_token().unwrap(), Token::LeftBracket);
    assert_eq!(lexer.next_token().unwrap(), Token::RightBracket);
    assert_eq!(lexer.next_token().unwrap(), Token::Comma);
    assert_eq!(lexer.next_token().unwrap(), Token::Colon);
    assert_eq!(lexer.next_token().unwrap(), Token::Eof);
}

#[test]
fn test_lexer_string() {
    let mut lexer = Lexer::new(r#""hello world""#);
    assert_eq!(
        lexer.next_token().unwrap(),
        Token::String("hello world".to_string())
    );
}

#[test]
fn test_lexer_number() {
    let mut lexer = Lexer::new("123");
    assert_eq!(
        lexer.next_token().unwrap(),
        Token::Number(JsonNumber {
            negative: false,
            int_digits: "123".to_string(),
            frac_digits: String::new(),
        })
    );

    let mut lexer = Lexer::new("-42.5");
    assert_eq!(
        lexer.next_token().unwrap(),
        Token::Number(JsonNumber {
            negative: true,
            int_digits: "42".to_string(),
            frac_digits: "5".to_string(),
        })
    );
}

#[test]
fn test_lexer_keywords() {
    let mut lexer = Lexer::new("true");
    assert_eq!(lexer.next_token().unwrap(), Token::Boolean(true));

    let mut lexer = Lexer::new("false");
    assert_eq!(lexer.next_token().unwrap(), Token::Boolean(false));

    let mut lexer = Lexer::new("null");
    assert_eq!(lexer.next_token().unwrap(), Token::Null);
}

#[test]
fn test_lexer_eof_is_repeatable() {
    let mut lexer = Lexer::new("  ");
    assert_eq!(lexer.next_token().unwrap(), Token::Eof);
    assert_eq!(lexer.next_token().unwrap(), Token::Eof);
    assert_eq!(lexer.next_token().unwrap(), Token::Eof);
}

#[test]
fn test_lexer_string_escapes() {
    let mut lexer = Lexer::new(r#""a\"b\\c\nd\re\tf""#);
    assert_eq!(
        lexer.next_token().unwrap(),
        Token::String("a\"b\\c\nd\re\tf".to_string())
    );
}

#[test]
fn test_lexer_invalid_escape() {
    let mut lexer = Lexer::new(r#""a\qb""#);
    let err = lexer.next_token().unwrap_err();
    assert_eq!(err.message, "Invalid escape sequence: \\q");
    assert_eq!(err.position, 3);
}

#[test]
fn test_lexer_unterminated_string() {
    let mut lexer = Lexer::new("\"abc");
    let err = lexer.next_token().unwrap_err();
    assert_eq!(err.message, "Unterminated string");
    assert_eq!(err.position, 0);
}

#[test]
fn test_lexer_invalid_number() {
    let mut lexer = Lexer::new("-");
    let err = lexer.next_token().unwrap_err();
    assert_eq!(err.message, "Invalid number");

    let mut lexer = Lexer::new("-.");
    let err = lexer.next_token().unwrap_err();
    assert_eq!(err.message, "Invalid number");
}

#[test]
fn test_lexer_number_trailing_dot() {
    let mut lexer = Lexer::new("5.");
    assert_eq!(
        lexer.next_token().unwrap(),
        Token::Number(JsonNumber {
            negative: false,
            int_digits: "5".to_string(),
            frac_digits: String::new(),
        })
    );
}

#[test]
fn test_lexer_unexpected_keyword() {
    let mut lexer = Lexer::new("tru");
    let err = lexer.next_token().unwrap_err();
    assert_eq!(err.message, "Unexpected keyword: tru");
    assert_eq!(err.position, 0);
}

#[test]
fn test_lexer_unexpected_character() {
    let mut lexer = Lexer::new("  @");
    let err = lexer.next_token().unwrap_err();
    assert_eq!(err.message, "Unexpected character: '@'");
    assert_eq!(err.position, 2);
}

#[test]
fn test_lexer_skips_whitespace() {
    let mut lexer = Lexer::new(" \t\r\n  {");
    assert_eq!(lexer.next_token().unwrap(), Token::LeftBrace);
    assert_eq!(lexer.next_token().unwrap(), Token::Eof);
}
