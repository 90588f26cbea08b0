use arlang::lexer::lex;
use arlang::parser::{ParseError, Parser};
use arlang::types::{Node, TokeType};

fn show(n: &Node) -> String {
    match n {
        Node::Program { body } => format!("(program{})", list(body)),
        Node::MemberExpr => "(member)".to_string(),
        Node::CallExpr { callee, args } => format!("(call {}{})", show(callee), list(args)),
        Node::NumericLiteral { typ, val } => format!("({} {})", typ, val),
        Node::Identifier { name } => format!("(id {})", name),
        Node::Variable { name } => format!("(var {})", name),
        Node::TypedIdentifier { name, typ } => format!("(typed {} {})", name, show(typ)),
        Node::BinaryExpr { left, right, operator } => {
            format!("({} {} {})", operator, show(left), show(right))
        }
        Node::Function { name, params, body } => {
            format!("(fn {} (params{}) (body{}))", name, list(params), list(body))
        }
    }
}

fn list(ns: &[Node]) -> String {
    ns.iter().map(|n| format!(" {}", show(n))).collect()
}

fn parse_with(src: &str, require_main: bool) -> Result<Node, ParseError> {
    let tokens = lex(src).expect("source tokenizes");
    let mut parser = Parser::new(tokens);
    parser.set_require_main(require_main);
    parser.parse()
}

fn parse_expr(src: &str) -> String {
    match parse_with(src, false) {
        Ok(n) => show(&n),
        Err(e) => panic!("unexpected failure {:?}", e),
    }
}

#[test]
fn precedence_of_multiplication() {
    assert_eq!(parse_expr("1 + 2 * 3"), "(program (+ (int 1) (* (int 2) (int 3))))");
}

#[test]
fn grouping_overrides_precedence() {
    assert_eq!(parse_expr("(1 + 2) * 3"), "(program (* (+ (int 1) (int 2)) (int 3)))");
}

#[test]
fn subtraction_is_left_associative() {
    assert_eq!(parse_expr("1 - 2 - 3"), "(program (- (- (int 1) (int 2)) (int 3)))");
}

#[test]
fn division_and_modulo_are_left_associative() {
    assert_eq!(parse_expr("8 / 4 % 3"), "(program (% (/ (int 8) (int 4)) (int 3)))");
}

#[test]
fn declaration_desugars_to_assignment() {
    assert_eq!(parse_expr("let x = 5"), "(program (= (var x) (int 5)))");
    assert_eq!(parse_expr("const y = 1.5"), "(program (= (var y) (float 1.5)))");
}

#[test]
fn bare_assignment() {
    assert_eq!(parse_expr("x = 1 + y"), "(program (= (var x) (+ (int 1) (id y))))");
}

#[test]
fn statements_in_order() {
    assert_eq!(parse_expr("a 1 b"), "(program (id a) (int 1) (id b))");
}

#[test]
fn empty_program_without_entry_point_policy() {
    assert_eq!(parse_expr(""), "(program)");
}

#[test]
fn incomplete_expression_is_unexpected_eof() {
    assert!(matches!(parse_with("1 +", false), Err(ParseError::UnexpectedEof)));
}

#[test]
fn close_paren_first_is_unexpected_token() {
    match parse_with(")", false) {
        Err(ParseError::UnexpectedToken { expected, found }) => {
            assert_eq!(expected, None);
            assert_eq!(found.typ, TokeType::CloseParen);
            assert_eq!(found.val, ")");
        }
        other => panic!("unexpected result {:?}", other.map(|n| show(&n))),
    }
}

#[test]
fn missing_close_paren_names_expected_kind() {
    match parse_with("(1 2", false) {
        Err(ParseError::UnexpectedToken { expected, found }) => {
            assert_eq!(expected, Some(TokeType::CloseParen));
            assert_eq!(found.typ, TokeType::Int);
            assert_eq!(found.val, "2");
        }
        other => panic!("unexpected result {:?}", other.map(|n| show(&n))),
    }
    assert!(matches!(parse_with("(1", false), Err(ParseError::UnexpectedEof)));
}

#[test]
fn declaration_requires_name_and_assignment() {
    match parse_with("let 5 = 1", false) {
        Err(ParseError::UnexpectedToken { expected, .. }) => {
            assert_eq!(expected, Some(TokeType::Identifier))
        }
        other => panic!("unexpected result {:?}", other.map(|n| show(&n))),
    }
    match parse_with("let x 1", false) {
        Err(ParseError::UnexpectedToken { expected, .. }) => {
            assert_eq!(expected, Some(TokeType::Assignment))
        }
        other => panic!("unexpected result {:?}", other.map(|n| show(&n))),
    }
}

#[test]
fn function_definition() {
    assert_eq!(
        parse_expr("fn main(a, b) { let c = a + b c }"),
        "(program (fn main (params (id a) (id b)) (body (= (var c) (+ (id a) (id b))) (id c))))"
    );
    assert_eq!(parse_expr("fn f() {}"), "(program (fn f (params) (body)))");
}

#[test]
fn unclosed_function_body_is_unexpected_eof() {
    assert!(matches!(parse_with("fn main() { 1", false), Err(ParseError::UnexpectedEof)));
    assert!(matches!(parse_with("fn main(a", false), Err(ParseError::UnexpectedEof)));
}

#[test]
fn entry_point_required_by_default() {
    let mut parser = Parser::new(lex("1 + 2").unwrap());
    assert!(matches!(parser.parse(), Err(ParseError::MissingEntryPoint)));
    let mut parser = Parser::new(lex("fn helper() {}").unwrap());
    assert!(matches!(parser.parse(), Err(ParseError::MissingEntryPoint)));
    let mut parser = Parser::new(lex("fn main() { 1 }").unwrap());
    let program = parser.parse().expect("main is present");
    assert_eq!(show(&program), "(program (fn main (params) (body (int 1))))");
}

#[test]
fn comments_are_dropped_before_parsing() {
    assert_eq!(parse_expr("1 /* c */ + // d\n 2"), "(program (+ (int 1) (int 2)))");
    let parser = Parser::new(lex("1 /* c */ + 2").unwrap());
    assert_eq!(parser.tokens.len(), 3);
}

#[test]
fn operator_of_binary_expression() {
    match parse_with("1 * 2", false).unwrap() {
        Node::Program { body } => {
            assert_eq!(body[0].get_operator(), Some("*".to_string()));
        }
        _ => panic!("not a program"),
    }
    match parse_with("x", false).unwrap() {
        Node::Program { body } => assert_eq!(body[0].get_operator(), None),
        _ => panic!("not a program"),
    }
}
