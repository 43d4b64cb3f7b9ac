use markup::ast::{Attribute, Literal, Node, Tag};
use markup::lexer::{Lexer, LexingError, Token};
use markup::parser::{Parser, ParsingError};

fn b(s: &str) -> Vec<u8> {
    s.as_bytes().to_vec()
}

fn init_parser(source: &str) -> Parser {
    let mut lexer = Lexer::new(source.as_bytes());
    let tokens = lexer.scan_tokens().unwrap();
    let mut parser = Parser::new();
    parser.tokens = tokens;
    parser
}

#[test]
fn range() {
    let source = "1..10";
    let mut parser = init_parser(source);
    let ast = parser.range();
    assert_eq!(
        ast,
        Ok(Literal::Range {
            start: 1,
            end: Some(10)
        })
    )
}

#[test]
fn open_range() {
    let source = "1..";
    let mut parser = init_parser(source);
    let ast = parser.range();
    assert_eq!(
        ast,
        Ok(Literal::Range {
            start: 1,
            end: None
        })
    )
}

#[test]
fn list() {
    let source = r#"[1, 1..3, "string"]"#;
    let mut parser = init_parser(source);
    let ast = parser.list();
    assert_eq!(
        ast,
        Ok(Literal::List(vec![
            Literal::Number(1),
            Literal::Range {
                start: 1,
                end: Some(3)
            },
            Literal::String(b("string"))
        ]))
    )
}

#[test]
fn nested_list() {
    let source = "[1, 1..3, [1, 1..3]]";
    let mut parser = init_parser(source);
    let ast = parser.list();
    assert_eq!(
        ast,
        Ok(Literal::List(vec![
            Literal::Number(1),
            Literal::Range {
                start: 1,
                end: Some(3)
            },
            Literal::List(vec![
                Literal::Number(1),
                Literal::Range {
                    start: 1,
                    end: Some(3)
                },
            ])
        ]))
    )
}

#[test]
fn attribute() {
    let source = "name: [1, 1..3]";
    let mut parser = init_parser(source);
    let ast = parser.attribute();
    assert_eq!(
        ast,
        Ok(Attribute {
            name: b("name"),
            value: Literal::List(vec![
                Literal::Number(1),
                Literal::Range {
                    start: 1,
                    end: Some(3)
                }
            ])
        })
    )
}

#[test]
fn attributes() {
    let source = "(name: [1, 1..3], num: 123)";
    let mut parser = init_parser(source);
    let ast = parser.attributes();
    assert_eq!(
        ast,
        Ok(vec![
            Attribute {
                name: b("name"),
                value: Literal::List(vec![
                    Literal::Number(1),
                    Literal::Range {
                        start: 1,
                        end: Some(3)
                    }
                ])
            },
            Attribute {
                name: b("num"),
                value: Literal::Number(123)
            }
        ])
    )
}

#[test]
fn node() {
    let source = r#"
row(reversed: "true") {
    p { "first" }
    "second"
}"#;
    let mut parser = init_parser(source);
    let ast = parser.node();
    assert_eq!(
        ast,
        Ok(Node::Tag(Tag {
            name: b("row"),
            attributes: vec![Attribute {
                name: b("reversed"),
                value: Literal::String(b("true"))
            }],
            children: vec![
                Node::Tag(Tag {
                    name: b("p"),
                    attributes: vec![],
                    children: vec![Node::String(b("first"))]
                }),
                Node::String(b("second"))
            ]
        }))
    )
}

#[test]
fn markup() {
    let source = r#"
p {"first"}
div {"second"}
"third"
"#;
    let mut parser = Parser::new();
    let ast = parser.parse(source.as_bytes()).unwrap();
    assert_eq!(
        ast,
        vec![
            Node::Tag(Tag {
                name: b("p"),
                attributes: vec![],
                children: vec![Node::String(b("first"))]
            }),
            Node::Tag(Tag {
                name: b("div"),
                attributes: vec![],
                children: vec![Node::String(b("second"))]
            }),
            Node::String(b("third"))
        ]
    )
}

#[test]
fn string_document() {
    let source = r#""abc""#;
    let mut parser = Parser::new();
    let ast = parser.parse(source.as_bytes());
    assert_eq!(ast, Ok(vec![Node::String(b("abc"))]));
}

#[test]
fn empty_tag() {
    let source = "div {}";
    let mut parser = Parser::new();
    let ast = parser.parse(source.as_bytes());
    assert_eq!(
        ast,
        Ok(vec![Node::Tag(Tag {
            name: b("div"),
            attributes: vec![],
            children: vec![]
        })])
    );
}

#[test]
fn default_parser_parses() {
    let source = r#""abc""#;
    let mut parser = Parser::default();
    let ast = parser.parse(source.as_bytes());
    assert_eq!(ast, Ok(vec![Node::String(b("abc"))]));
}

#[test]
fn empty_document() {
    let mut parser = Parser::new();
    let ast = parser.parse(b"");
    assert_eq!(ast, Ok(vec![]));
}

#[test]
fn unclosed_string_fails_parse() {
    let source = r#""unclosed string"#;
    let mut parser = Parser::new();
    let ast = parser.parse(source.as_bytes());
    assert_eq!(
        ast,
        Err(ParsingError::LexingError(LexingError::UnclosedStringLiteral {
            start: 0,
            end: 16
        }))
    );
}

#[test]
fn missing_closing_brace() {
    let source = r#"div { "x" "#;
    let mut parser = Parser::new();
    let ast = parser.parse(source.as_bytes());
    assert_eq!(
        ast,
        Err(ParsingError::ExpectedToken {
            at: 3,
            expected: Token::RightBrace,
            got: Token::EOF
        })
    );
}

#[test]
fn unexpected_token_at_top_level() {
    let source = "}";
    let mut parser = Parser::new();
    let ast = parser.parse(source.as_bytes());
    assert_eq!(ast, Err(ParsingError::UnexpectedToken { at: 0 }));
}

#[test]
fn missing_attribute_value_fails() {
    let source = "div(name:){}";
    let mut parser = Parser::new();
    let ast = parser.parse(source.as_bytes());
    assert_eq!(ast, Err(ParsingError::UnexpectedToken { at: 4 }));
}

#[test]
fn unclosed_list_in_attribute_fails() {
    let source = "div(name: [1){}";
    let mut parser = Parser::new();
    let ast = parser.parse(source.as_bytes());
    assert_eq!(
        ast,
        Err(ParsingError::ExpectedToken {
            at: 6,
            expected: Token::RightBracket,
            got: Token::RightParen
        })
    );
}

#[test]
fn empty_attribute_clause() {
    let source = "div(){}";
    let mut parser = Parser::new();
    let ast = parser.parse(source.as_bytes());
    assert_eq!(
        ast,
        Ok(vec![Node::Tag(Tag {
            name: b("div"),
            attributes: vec![],
            children: vec![]
        })])
    );
}

#[test]
fn empty_list() {
    let source = "[]";
    let mut parser = init_parser(source);
    let ast = parser.list();
    assert_eq!(ast, Ok(Literal::List(vec![])));
}
