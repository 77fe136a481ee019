use lambda::error::Error;
use lambda::lexer::Lexer;
use lambda::parse_node::{GrammarItem, ParseNode, Type};
use lambda::parser::Parser;
use lambda::token::Token;

#[test]
fn parse_variable() {
    let input = r#"a"#;
    let lexer = Lexer::new(input);
    let mut parser = Parser::new(lexer);
    let node = parser.parse_expr();

    assert_eq!(
        Ok(ParseNode::new(
            GrammarItem::Variable("a".to_string()),
            Type::Unknown
        )),
        node
    );
}

#[test]
fn parse_literal_int() {
    let input = r#"1234567890"#;
    let lexer = Lexer::new(input);
    let mut parser = Parser::new(lexer);
    let node = parser.parse_expr();

    assert_eq!(
        Ok(ParseNode::new(GrammarItem::LiteralInt(1234567890), Type::Unknown)),
        node
    );
}

#[test]
fn parse_expr_test_application() {
    let input = r#"a b c"#;
    let lexer = Lexer::new(input);
    let mut parser = Parser::new(lexer);
    let node = parser.parse_expr();
    assert_eq!(
        Ok(ParseNode::new(
            GrammarItem::Application(
                Box::new(ParseNode::new(
                    GrammarItem::Application(
                        Box::new(ParseNode::new(
                            GrammarItem::Variable("a".to_string()),
                            Type::Unknown
                        )),
                        Box::new(ParseNode::new(
                            GrammarItem::Variable("b".to_string()),
                            Type::Unknown
                        )),
                    ),
                    Type::Unknown
                )),
                Box::new(ParseNode::new(
                    GrammarItem::Variable("c".to_string()),
                    Type::Unknown
                ))
            ),
            Type::Unknown
        )),
        node
    );
}

#[test]
fn parse_expr_test_abstraction() {
    let input = r#"\a. \b. a"#;
    let lexer = Lexer::new(input);
    let mut parser = Parser::new(lexer);
    let node = parser.parse_expr();
    assert_eq!(
        Ok(ParseNode::new(
            GrammarItem::Abstraction(
                "a".to_string(),
                Box::new(ParseNode::new(
                    GrammarItem::Abstraction(
                        "b".to_string(),
                        Box::new(ParseNode::new(
                            GrammarItem::Variable("a".to_string()),
                            Type::Unknown
                        ))
                    ),
                    Type::Unknown
                ))
            ),
            Type::Unknown
        )),
        node
    );
}

#[test]
fn parse_expr_test_paren() {
    let input = r#"a (b c)"#;
    let lexer = Lexer::new(input);
    let mut parser = Parser::new(lexer);
    let node = parser.parse_expr();
    assert_eq!(
        Ok(ParseNode::new(
            GrammarItem::Application(
                Box::new(ParseNode::new(
                    GrammarItem::Variable("a".to_string()),
                    Type::Unknown
                )),
                Box::new(ParseNode::new(
                    GrammarItem::Application(
                        Box::new(ParseNode::new(
                            GrammarItem::Variable("b".to_string()),
                            Type::Unknown
                        )),
                        Box::new(ParseNode::new(
                            GrammarItem::Variable("c".to_string()),
                            Type::Unknown
                        ))
                    ),
                    Type::Unknown
                ))
            ),
            Type::Unknown
        )),
        node
    );
}

#[test]
fn parse_expr_test_error_2() {
    let input = r#"(a b"#;
    let lexer = Lexer::new(input);
    let mut parser = Parser::new(lexer);
    let node = parser.parse_expr();
    assert_eq!(
        Err(Error::ExpectedToken(Token::RParen, Token::EndOfInput)),
        node
    );
}

#[test]
fn parse_expr_test_error_3() {
    let input = r#"\. a"#;
    let lexer = Lexer::new(input);
    let mut parser = Parser::new(lexer);
    let node = parser.parse_expr();
    assert_eq!(
        Err(Error::ExpectedToken(
            Token::LowerIdentifier("".to_string()),
            Token::Dot
        )),
        node
    );
}

#[test]
fn parse_expr_test_error_4() {
    let input = r#"\a( a"#;
    let lexer = Lexer::new(input);
    let mut parser = Parser::new(lexer);
    let node = parser.parse_expr();
    assert_eq!(Err(Error::ExpectedToken(Token::Dot, Token::LParen)), node);
}

#[test]
fn parse_expr_test_error_5() {
    let input = r#"$"#;
    let lexer = Lexer::new(input);
    let mut parser = Parser::new(lexer);
    let node = parser.parse_expr();
    assert_eq!(Err(Error::IllegalToken(Token::Illegal)), node);
}

#[test]
fn parse_expr_test_error_6() {
    let input = r#"\a. "#;
    let lexer = Lexer::new(input);
    let mut parser = Parser::new(lexer);
    let node = parser.parse_expr();
    assert_eq!(Err(Error::UnexpectedEndOfInput), node);
}

#[test]
fn parse_program_single_assignment() {
    let lexer = Lexer::new(r#"id = \x. x"#);
    let mut parser = Parser::new(lexer);
    let node = parser.parse();
    assert_eq!(
        Ok(ParseNode::new(
            GrammarItem::Program(vec![ParseNode::new(
                GrammarItem::Assignment(
                    "id".to_string(),
                    Box::new(ParseNode::new(
                        GrammarItem::Abstraction(
                            "x".to_string(),
                            Box::new(ParseNode::new(
                                GrammarItem::Variable("x".to_string()),
                                Type::Unknown
                            ))
                        ),
                        Type::Unknown
                    ))
                ),
                Type::Unknown
            )]),
            Type::Unknown
        )),
        node
    );
    assert!(parser.is_empty());
}

#[test]
fn parse_program_trailing_garbage() {
    let lexer = Lexer::new(r#"id = \x. x ) )"#);
    let mut parser = Parser::new(lexer);
    let node = parser.parse();
    assert_eq!(Err(Error::ExpectedEndOfInput(Token::RParen)), node);
}

#[test]
fn parse_literal_int_overflow() {
    let lexer = Lexer::new("99999999999");
    let mut parser = Parser::new(lexer);
    let node = parser.parse_expr();
    assert_eq!(Err(Error::IntegerParseError), node);
}

#[test]
fn parse_expr_upper_identifier_rejected() {
    let lexer = Lexer::new("Int");
    let mut parser = Parser::new(lexer);
    let node = parser.parse_expr();
    assert_eq!(
        Err(Error::IllegalToken(Token::UpperIdentifier("Int".to_string()))),
        node
    );
    assert!(!parser.is_empty());
}

#[test]
fn is_empty_detects_trailing_tokens() {
    let lexer = Lexer::new("a )");
    let mut parser = Parser::new(lexer);
    assert!(parser.parse_expr().is_ok());
    assert!(!parser.is_empty());

    let lexer = Lexer::new("a   ");
    let mut parser = Parser::new(lexer);
    assert!(parser.parse_expr().is_ok());
    assert!(parser.is_empty());
}

#[test]
fn program_then_expression_retry_protocol() {
    let lexer = Lexer::new(r#"\x. x"#);
    let mut parser = Parser::new(lexer);
    let first = parser.parse_toplevel_assignment();
    assert!(first.is_err());
    parser.reset_lexer();
    let second = parser.parse_expr();
    assert_eq!(
        Ok(ParseNode::new(
            GrammarItem::Abstraction(
                "x".to_string(),
                Box::new(ParseNode::new(
                    GrammarItem::Variable("x".to_string()),
                    Type::Unknown
                ))
            ),
            Type::Unknown
        )),
        second
    );
    assert!(parser.is_empty());
}

#[test]
fn parse_toplevel_assignment_requires_assign() {
    let lexer = Lexer::new("id id");
    let mut parser = Parser::new(lexer);
    let node = parser.parse_toplevel_assignment();
    assert_eq!(
        Err(Error::ExpectedToken(
            Token::Assign,
            Token::LowerIdentifier("id".to_string())
        )),
        node
    );
}
