use lambda::lexer::{is_letter, Lexer};
use lambda::token::Token;

#[test]
fn is_letter_test() {
    assert!(is_letter('_'));
    assert!(is_letter('a'));
    assert!(is_letter('Z'));

    assert!(!is_letter('*'));
    assert!(!is_letter('1'));
}

#[test]
fn next_token_test() {
    let input = r#"fake_identifier: Int = \a. \b. (b c) 109   "#;

    let expected = vec![
        Token::LowerIdentifier("fake_identifier".to_string()),
        Token::Colon,
        Token::UpperIdentifier("Int".to_string()),
        Token::Assign,
        Token::Backslash,
        Token::LowerIdentifier("a".to_string()),
        Token::Dot,
        Token::Backslash,
        Token::LowerIdentifier("b".to_string()),
        Token::Dot,
        Token::LParen,
        Token::LowerIdentifier("b".to_string()),
        Token::LowerIdentifier("c".to_string()),
        Token::RParen,
        Token::IntegerLiteral("109".to_string()),
        Token::EndOfInput,
    ];

    let mut lexer = Lexer::new(input);

    for e in expected {
        assert_eq!(lexer.next_token(), e)
    }
}

#[test]
fn next_token_illegal() {
    let input = "_test_";

    let expected = vec![
        Token::Illegal,
        Token::LowerIdentifier("test_".to_string()),
    ];

    let mut lexer = Lexer::new(input);

    for e in expected {
        assert_eq!(lexer.next_token(), e)
    }
}

#[test]
fn next_token_cache() {
    let input = "(a b)";
    let mut lexer = Lexer::new(input);

    assert_eq!(lexer.next_token(), Token::LParen);
    assert_eq!(lexer.next_token(), Token::LowerIdentifier("a".to_string()));
    assert_eq!(lexer.next_token(), Token::LowerIdentifier("b".to_string()));
    assert_eq!(lexer.next_token(), Token::RParen);
    lexer.put_back(Token::RParen);
    lexer.put_back(Token::LowerIdentifier("b".to_string()));
    assert_eq!(lexer.next_token(), Token::LowerIdentifier("b".to_string()));
    assert_eq!(lexer.next_token(), Token::RParen);
}

#[test]
fn single_identifier_with_whitespace() {
    let mut lexer = Lexer::new("  foo_1  ");
    assert_eq!(lexer.next_token(), Token::LowerIdentifier("foo_1".to_string()));
    assert_eq!(lexer.next_token(), Token::EndOfInput);

    let mut upper = Lexer::new("\t Ab9_z\n");
    assert_eq!(upper.next_token(), Token::UpperIdentifier("Ab9_z".to_string()));
    assert_eq!(upper.next_token(), Token::EndOfInput);
}

#[test]
fn put_back_then_scan_resumes() {
    let mut lexer = Lexer::new("x y");
    let x = lexer.next_token();
    assert_eq!(x, Token::LowerIdentifier("x".to_string()));
    lexer.put_back(x);
    assert_eq!(lexer.next_token(), Token::LowerIdentifier("x".to_string()));
    assert_eq!(lexer.next_token(), Token::LowerIdentifier("y".to_string()));
    assert_eq!(lexer.next_token(), Token::EndOfInput);
    assert_eq!(lexer.next_token(), Token::EndOfInput);
}

#[test]
fn digit_scan_stops_at_letter() {
    let mut lexer = Lexer::new("1a");
    assert_eq!(lexer.next_token(), Token::IntegerLiteral("1".to_string()));
    assert_eq!(lexer.next_token(), Token::LowerIdentifier("a".to_string()));
    assert_eq!(lexer.next_token(), Token::EndOfInput);
}

#[test]
fn lexer_reset_rewinds() {
    let mut lexer = Lexer::new("a b");
    assert_eq!(lexer.next_token(), Token::LowerIdentifier("a".to_string()));
    lexer.reset();
    assert_eq!(lexer.next_token(), Token::LowerIdentifier("a".to_string()));
    assert_eq!(lexer.next_token(), Token::LowerIdentifier("b".to_string()));
}
