use whowlang::lexer::{LexError, Lexer, Token, TokenKind};
use whowlang::parser::{parse_source, LiteralError, ParseError, Parser, SourceError};
use whowlang::value::{table_get, Value};

fn parse(src: &str) -> Result<Vec<(String, Value)>, SourceError> {
    parse_source(src.to_string())
}

fn entry(k: &str, v: Value) -> (String, Value) {
    (k.to_string(), v)
}

fn tok(kind: TokenKind) -> Token {
    Token::new(kind, 1, 0)
}

#[test]
fn float_literal() {
    let t = parse("key 1.5\n").unwrap();
    assert_eq!(t, vec![entry("key", Value::Float("1.5".to_string()))]);
    match &t[0].1 {
        Value::Float(s) => assert_eq!(s.parse::<f32>().unwrap(), 1.5f32),
        other => panic!("not a float: {:?}", other),
    }
}

#[test]
fn too_many_decimals() {
    assert_eq!(
        parse("key 1.5.2\n"),
        Err(SourceError::Parse(ParseError::BadLiteral {
            error: LiteralError::TooManyDecimals,
            text: "1.5.2".to_string(),
            line: 1,
            col: 4
        }))
    );
}

#[test]
fn leading_zeros() {
    assert_eq!(parse("key 007\n").unwrap(), vec![entry("key", Value::Int(7))]);
}

#[test]
fn integer_range() {
    assert_eq!(
        parse("key 2147483647\n").unwrap(),
        vec![entry("key", Value::Int(2147483647))]
    );
    assert_eq!(
        parse("key 2147483648\n"),
        Err(SourceError::Parse(ParseError::BadLiteral {
            error: LiteralError::OutOfRange,
            text: "2147483648".to_string(),
            line: 1,
            col: 4
        }))
    );
}

#[test]
fn invalid_literals() {
    for (src, text) in [("key -5\n", "-5"), ("key 1e5\n", "1e5"), ("key 12A\n", "12a")] {
        assert_eq!(
            parse(src),
            Err(SourceError::Parse(ParseError::BadLiteral {
                error: LiteralError::Invalid,
                text: text.to_string(),
                line: 1,
                col: 4
            }))
        );
    }
    let mut p = Parser::new(Vec::new());
    assert_eq!(p.parse_literal(""), Err(LiteralError::Invalid));
    assert_eq!(p.parse_literal("."), Err(LiteralError::Invalid));
    assert_eq!(p.parse_literal("5."), Ok(Value::Float("5.".to_string())));
}

#[test]
fn words_and_strings() {
    assert_eq!(
        parse("a yes\nb No\nc TRUE\nd false\ne nil\nf null\ng 'x y'\nh \"q\"\n").unwrap(),
        vec![
            entry("a", Value::Bool(true)),
            entry("b", Value::Bool(false)),
            entry("c", Value::Bool(true)),
            entry("d", Value::Bool(false)),
            entry("e", Value::Null),
            entry("f", Value::Null),
            entry("g", Value::String("x y".to_string())),
            entry("h", Value::String("q".to_string())),
        ]
    );
}

#[test]
fn variable_substitution() {
    assert_eq!(parse("$x 5\nkey $x\n").unwrap(), vec![entry("key", Value::Int(5))]);
}

#[test]
fn undefined_variable() {
    assert_eq!(
        parse("key $undefined\n"),
        Err(SourceError::Parse(ParseError::InvalidVariable {
            name: "undefined".to_string(),
            line: 1,
            col: 4
        }))
    );
}

#[test]
fn variable_rebinding_and_chains() {
    assert_eq!(
        parse("$x 1\na $x\n$x 2\n$y $x\nb $y\n").unwrap(),
        vec![entry("a", Value::Int(1)), entry("b", Value::Int(2))]
    );
}

#[test]
fn nested_array() {
    assert_eq!(
        parse("key [1 2 [3 4] 5]\n").unwrap(),
        vec![entry(
            "key",
            Value::Array(vec![
                Value::Int(1),
                Value::Int(2),
                Value::Array(vec![Value::Int(3), Value::Int(4)]),
                Value::Int(5),
            ])
        )]
    );
}

#[test]
fn unclosed_array() {
    assert_eq!(
        parse("key [1 2 [3 4] 5\n"),
        Err(SourceError::Parse(ParseError::UnexpectedEnd))
    );
}

#[test]
fn nested_table() {
    assert_eq!(
        parse("key { inner 1 }\n").unwrap(),
        vec![entry("key", Value::Table(vec![entry("inner", Value::Int(1))]))]
    );
}

#[test]
fn outer_variable_not_visible_in_table() {
    assert_eq!(
        parse("$x 1\nkey { inner $x }\n"),
        Err(SourceError::Parse(ParseError::InvalidVariable {
            name: "x".to_string(),
            line: 2,
            col: 12
        }))
    );
}

#[test]
fn tables_in_tables_and_arrays() {
    assert_eq!(
        parse("a { b { c 1 } d [ { e 2 } 3 ] }\n").unwrap(),
        vec![entry(
            "a",
            Value::Table(vec![
                entry("b", Value::Table(vec![entry("c", Value::Int(1))])),
                entry(
                    "d",
                    Value::Array(vec![
                        Value::Table(vec![entry("e", Value::Int(2))]),
                        Value::Int(3),
                    ])
                ),
            ])
        )]
    );
}

#[test]
fn unclosed_table() {
    assert_eq!(
        parse("key { a { b 1 }\n"),
        Err(SourceError::Parse(ParseError::UnexpectedEnd))
    );
}

#[test]
fn parenthesis_is_refused() {
    assert_eq!(
        parse("key ( 1 )\n"),
        Err(SourceError::Parse(ParseError::Parenthesis { line: 1, col: 4 }))
    );
}

#[test]
fn invalid_tokens() {
    let invalid = |token: TokenKind, col: usize| {
        Err(SourceError::Parse(ParseError::InvalidToken { token, line: 1, col }))
    };
    assert_eq!(parse("1 2\n"), invalid(TokenKind::Literal("1".to_string()), 0));
    assert_eq!(parse("a b\n"), invalid(TokenKind::Key("b".to_string()), 2));
    assert_eq!(parse("$v [ 1 ]\n"), invalid(TokenKind::Separator('['), 3));
    assert_eq!(parse("a [ b ]\n"), invalid(TokenKind::Key("b".to_string()), 4));
}

#[test]
fn missing_value_at_end() {
    assert_eq!(parse("key\n"), Err(SourceError::Parse(ParseError::UnexpectedEnd)));
    assert_eq!(parse("$v\n"), Err(SourceError::Parse(ParseError::UnexpectedEnd)));
}

#[test]
fn last_write_wins() {
    let t = parse("a 1\nb 2\na 3\n").unwrap();
    assert_eq!(t, vec![entry("a", Value::Int(3)), entry("b", Value::Int(2))]);
    assert_eq!(table_get(&t, &"a".to_string()), Some(&Value::Int(3)));
    assert_eq!(table_get(&t, &"c".to_string()), None);
}

#[test]
fn bare_aggregate_is_dropped() {
    assert_eq!(
        parse("[1 2]\n{ x 1 }\nkey 1\n").unwrap(),
        vec![entry("key", Value::Int(1))]
    );
}

#[test]
fn comments_between_statements() {
    assert_eq!(
        parse("# head\na 1 # tail\n\n# more\nb 2\n").unwrap(),
        vec![entry("a", Value::Int(1)), entry("b", Value::Int(2))]
    );
}

#[test]
fn lexical_error_is_reported() {
    assert_eq!(
        parse("key 'abc\n"),
        Err(SourceError::Lex(LexError::UnterminatedString { line: 1, col: 4 }))
    );
}

#[test]
fn parsing_copies_gives_equal_tables() {
    let tokens = Lexer::new("a [1 { b 2 }]\n$v 'x'\nc $v\n".to_string()).lex().unwrap();
    let copy: Vec<Token> = tokens.iter().map(|t| t.duplicate()).collect();
    let first = Parser::new(tokens).parse().unwrap();
    let second = Parser::new(copy).parse().unwrap();
    assert_eq!(first, second);
}

#[test]
fn parse_from_token_sequence() {
    let tokens = vec![
        tok(TokenKind::Key("key".to_string())),
        tok(TokenKind::Separator('[')),
        tok(TokenKind::Literal("1".to_string())),
        tok(TokenKind::Separator(']')),
    ];
    assert_eq!(
        Parser::new(tokens).parse(),
        Ok(vec![entry("key", Value::Array(vec![Value::Int(1)]))])
    );
}

#[test]
fn parse_sep_leaves_position_on_closer() {
    let tokens = vec![
        tok(TokenKind::Separator('[')),
        tok(TokenKind::Literal("1".to_string())),
        tok(TokenKind::Separator(']')),
        tok(TokenKind::Key("k".to_string())),
    ];
    let mut p = Parser::new(tokens);
    assert_eq!(p.parse_sep('['), Ok(Value::Array(vec![Value::Int(1)])));
    assert_eq!(p.cur().kind, TokenKind::Separator(']'));
}

#[test]
fn value_duplicate_is_equal() {
    let v = Value::Table(vec![entry("a", Value::Array(vec![Value::Null, Value::Bool(true)]))]);
    assert_eq!(v.duplicate(), v);
}
