use arlang::lexer::{lex, LexError};
use arlang::types::{TokeType, Token};

fn tokens(src: &str) -> Vec<Token> {
    match lex(src) {
        Ok(ts) => ts,
        Err(e) => panic!("unexpected failure {:?}", e),
    }
}

fn pairs(ts: &[Token]) -> Vec<(TokeType, String)> {
    ts.iter().map(|t| (t.typ, t.val.clone())).collect()
}

fn meaningful(ts: &[Token]) -> Vec<(TokeType, String)> {
    ts.iter()
        .filter(|t| t.typ != TokeType::Comment)
        .map(|t| (t.typ, t.val.clone()))
        .collect()
}

#[test]
fn punctuation_and_single_operators() {
    let ts = tokens("( ) [ ] { } , = - * + %");
    let kinds: Vec<TokeType> = ts.iter().map(|t| t.typ).collect();
    assert_eq!(
        kinds,
        vec![
            TokeType::OpenParen,
            TokeType::CloseParen,
            TokeType::OpenBracket,
            TokeType::CloseBracket,
            TokeType::OpenBrace,
            TokeType::CloseBrace,
            TokeType::Comma,
            TokeType::Assignment,
            TokeType::Operator,
            TokeType::Operator,
            TokeType::Operator,
            TokeType::Operator,
        ]
    );
    let texts: Vec<String> = ts.iter().map(|t| t.val.clone()).collect();
    assert_eq!(texts, vec!["(", ")", "[", "]", "{", "}", ",", "=", "-", "*", "+", "%"]);
}

#[test]
fn string_escape_round_trip() {
    let ts = tokens("\"a\\nb\"");
    assert_eq!(pairs(&ts), vec![(TokeType::String, "a\nb".to_string())]);
}

#[test]
fn string_escapes_tab_return_quote_and_other() {
    let ts = tokens("\"\\t\\r\\\"\\q\"");
    assert_eq!(pairs(&ts), vec![(TokeType::String, "\t\r\"q".to_string())]);
}

#[test]
fn escaped_backslash_does_not_escape_the_quote() {
    let ts = tokens("\"a\\\\\" 1");
    assert_eq!(
        pairs(&ts),
        vec![(TokeType::String, "a\\".to_string()), (TokeType::Int, "1".to_string())]
    );
}

#[test]
fn comment_transparency() {
    let with = tokens("1 /* c */ + 2");
    let without = tokens("1 + 2");
    assert_eq!(meaningful(&with), pairs(&without));
    assert_eq!(with.len(), 4);
    assert_eq!(with[1].typ, TokeType::Comment);
    assert_eq!(with[1].val, " c ");
}

#[test]
fn line_comment_runs_to_end_of_line() {
    let ts = tokens("1 // hi\n2");
    assert_eq!(
        pairs(&ts),
        vec![
            (TokeType::Int, "1".to_string()),
            (TokeType::Comment, " hi".to_string()),
            (TokeType::Int, "2".to_string()),
        ]
    );
}

#[test]
fn block_comment_ends_at_first_close() {
    let ts = tokens("/***/ 7");
    assert_eq!(
        pairs(&ts),
        vec![(TokeType::Comment, "*".to_string()), (TokeType::Int, "7".to_string())]
    );
}

#[test]
fn numeric_range_disambiguation() {
    let ts = tokens("1..5");
    assert_eq!(
        pairs(&ts),
        vec![
            (TokeType::Int, "1".to_string()),
            (TokeType::Operator, "..".to_string()),
            (TokeType::Int, "5".to_string()),
        ]
    );
}

#[test]
fn float_then_range() {
    let ts = tokens("1.5..30");
    assert_eq!(
        pairs(&ts),
        vec![
            (TokeType::Float, "1.5".to_string()),
            (TokeType::Operator, "..".to_string()),
            (TokeType::Int, "30".to_string()),
        ]
    );
}

#[test]
fn float_literal() {
    assert_eq!(pairs(&tokens("3.14")), vec![(TokeType::Float, "3.14".to_string())]);
}

#[test]
fn division_operator() {
    assert_eq!(
        pairs(&tokens("6 / 3")),
        vec![
            (TokeType::Int, "6".to_string()),
            (TokeType::Operator, "/".to_string()),
            (TokeType::Int, "3".to_string()),
        ]
    );
    assert_eq!(
        pairs(&tokens("6 /")),
        vec![(TokeType::Int, "6".to_string()), (TokeType::Operator, "/".to_string())]
    );
}

#[test]
fn unterminated_string() {
    assert!(matches!(lex("\"abc"), Err(LexError::UnterminatedString)));
    assert!(matches!(lex("\"abc\\\""), Err(LexError::UnterminatedString)));
}

#[test]
fn unterminated_block_comment() {
    assert!(matches!(lex("1 /* abc"), Err(LexError::UnterminatedBlockComment)));
    assert!(matches!(lex("/*/"), Err(LexError::UnterminatedBlockComment)));
}

#[test]
fn unexpected_character_reports_context() {
    match lex("1 # abc") {
        Err(LexError::UnexpectedCharacter { ch, context }) => {
            assert_eq!(ch, '#');
            assert_eq!(context, "# abc");
        }
        other => panic!("unexpected result {:?}", other),
    }
    match lex("?abcdefghijklmnopqrstuvwxyz") {
        Err(LexError::UnexpectedCharacter { ch, context }) => {
            assert_eq!(ch, '?');
            assert_eq!(context, "?abcdefghijklmnopqrs");
        }
        other => panic!("unexpected result {:?}", other),
    }
}

#[test]
fn lone_dot_is_unexpected() {
    assert!(matches!(lex("."), Err(LexError::UnexpectedCharacter { ch: '.', .. })));
}

#[test]
fn keywords_and_identifiers() {
    let ts = tokens("let const fn foo _bar x1 lets");
    assert_eq!(
        pairs(&ts),
        vec![
            (TokeType::Keyword, "let".to_string()),
            (TokeType::Keyword, "const".to_string()),
            (TokeType::Keyword, "fn".to_string()),
            (TokeType::Identifier, "foo".to_string()),
            (TokeType::Identifier, "_bar".to_string()),
            (TokeType::Identifier, "x1".to_string()),
            (TokeType::Identifier, "lets".to_string()),
        ]
    );
}

#[test]
fn unicode_letters_and_whitespace() {
    let ts = tokens("\u{3000}\u{e9}t\u{e9}\u{a0}2");
    assert_eq!(
        pairs(&ts),
        vec![(TokeType::Identifier, "\u{e9}t\u{e9}".to_string()), (TokeType::Int, "2".to_string())]
    );
}

#[test]
fn empty_and_blank_input() {
    assert!(tokens("").is_empty());
    assert!(tokens(" \t\r\n").is_empty());
}

#[test]
fn retokenizing_spaced_texts_gives_same_tokens() {
    let ts = tokens("let x=(1+2.5)*y..z/3%w-[a,b]{}");
    let mut text = String::new();
    for t in &ts {
        text.push_str(&t.val);
        text.push(' ');
    }
    let again = tokens(&text);
    assert_eq!(pairs(&again), pairs(&ts));
    assert_eq!(ts.len(), 24);
}
