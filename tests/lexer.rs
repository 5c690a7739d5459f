use whowlang::lexer::{is_whitespace, LexError, Lexer, Token, TokenKind};
use whowlang::parser::Parser;
use whowlang::value::Value;

fn lex(src: &str) -> Result<Vec<Token>, LexError> {
    Lexer::new(src.to_string()).lex()
}

fn kinds(src: &str) -> Vec<TokenKind> {
    lex(src).unwrap().into_iter().map(|t| t.kind).collect()
}

#[test]
fn does_whitespace_work() {
    for ch in "\n\t ".chars() {
        assert!(is_whitespace(ch));
    }
    assert!(!is_whitespace('a'));
}

#[test]
fn comment_is_skipped_before_key_and_string() {
    assert_eq!(
        kinds("# comment\nkey \"val\""),
        vec![
            TokenKind::Key("key".to_string()),
            TokenKind::Literal("\"val\"".to_string()),
        ]
    );
}

#[test]
fn token_positions() {
    let toks = lex("a 1\n  b 2\n").unwrap();
    assert_eq!(toks.len(), 4);
    assert_eq!((toks[0].line, toks[0].col), (1, 0));
    assert_eq!((toks[1].line, toks[1].col), (1, 2));
    assert_eq!((toks[2].line, toks[2].col), (2, 2));
    assert_eq!((toks[3].line, toks[3].col), (2, 4));
}

#[test]
fn separators_idents_and_keys() {
    assert_eq!(
        kinds("k [ $v ]{}()\n"),
        vec![
            TokenKind::Key("k".to_string()),
            TokenKind::Separator('['),
            TokenKind::Ident("v".to_string()),
            TokenKind::Separator(']'),
            TokenKind::Separator('{'),
            TokenKind::Separator('}'),
            TokenKind::Separator('('),
            TokenKind::Separator(')'),
        ]
    );
}

#[test]
fn literals_are_lowercased_and_keys_are_not() {
    assert_eq!(
        kinds("Key TRUE\nOther Nil\nn -5\n"),
        vec![
            TokenKind::Key("Key".to_string()),
            TokenKind::Literal("true".to_string()),
            TokenKind::Key("Other".to_string()),
            TokenKind::Literal("nil".to_string()),
            TokenKind::Key("n".to_string()),
            TokenKind::Literal("-5".to_string()),
        ]
    );
}

#[test]
fn string_escapes_are_resolved() {
    let toks = lex("\"a\\nb\\\"c\\'d\\re\\\\f\\x\"").unwrap();
    assert_eq!(
        toks[0].kind,
        TokenKind::Literal("\"a\nb\"c'd\re\\fx\"".to_string())
    );
}

#[test]
fn escaped_string_round_trip() {
    for (src, content) in [
        ("\"line\\nfeed\"", "line\nfeed"),
        ("'carriage\\rreturn'", "carriage\rreturn"),
        ("\"it\\'s\"", "it's"),
        ("'back\\\\slash\\t'", "back\\slasht"),
        ("'say \\\"hi\\\"'", "say \"hi\""),
    ] {
        let toks = lex(src).unwrap();
        assert_eq!(toks.len(), 1);
        let text = match &toks[0].kind {
            TokenKind::Literal(t) => t.clone(),
            other => panic!("not a literal: {:?}", other),
        };
        let mut parser = Parser::new(Vec::new());
        assert_eq!(parser.parse_literal(&text), Ok(Value::String(content.to_string())));
    }
}

#[test]
fn unterminated_string_is_an_error() {
    assert_eq!(lex("key \"abc"), Err(LexError::UnterminatedString { line: 1, col: 4 }));
    assert_eq!(lex("key \"abc\\"), Err(LexError::UnterminatedString { line: 1, col: 4 }));
}

#[test]
fn last_single_character_is_not_tokenized() {
    assert_eq!(kinds("x"), Vec::<TokenKind>::new());
    assert_eq!(
        kinds("key 5"),
        vec![TokenKind::Key("key".to_string()), TokenKind::Literal("5".to_string())]
    );
    assert_eq!(
        kinds("k]"),
        vec![TokenKind::Key("k".to_string())]
    );
}

#[test]
fn comment_at_end_without_line_feed() {
    assert_eq!(kinds("a 1 # trailing"), vec![
        TokenKind::Key("a".to_string()),
        TokenKind::Literal("1".to_string()),
    ]);
}

#[test]
fn escaped_terminator_ends_the_resolved_string() {
    let toks = lex("\"say \\\"hi\\\"\"").unwrap();
    assert_eq!(toks[0].kind, TokenKind::Literal("\"say \"hi\"\"".to_string()));
    let mut parser = Parser::new(Vec::new());
    assert_eq!(
        parser.parse_literal("\"say \"hi\"\""),
        Ok(Value::String("say ".to_string()))
    );
}

#[test]
fn columns_start_at_zero_on_each_line() {
    let toks = lex("# comment\nkey \"val\"").unwrap();
    assert_eq!((toks[0].line, toks[0].col), (2, 0));
    assert_eq!((toks[1].line, toks[1].col), (2, 4));
    assert_eq!(lex("a 1\n  'x"), Err(LexError::UnterminatedString { line: 2, col: 2 }));
}

#[test]
fn leading_comment_line_moves_tokens_one_line_down() {
    let body = "key [1 'a']\n  $v { x 2 }\n";
    let plain = lex(body).unwrap();
    let commented = lex(&format!("# any text here\n{}", body)).unwrap();
    assert_eq!(plain.len(), commented.len());
    for (a, b) in commented.iter().zip(plain.iter()) {
        assert_eq!(a.kind, b.kind);
        assert_eq!(a.line, b.line + 1);
        assert_eq!(a.col, b.col);
    }
    assert!(lex("#c\nkey 'open").is_err() && lex("key 'open").is_err());
}
