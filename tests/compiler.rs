use arlang::compiler::{compile, indent, CompileError};
use arlang::lexer::lex;
use arlang::parser::Parser;
use arlang::types::Node;

fn program(src: &str) -> Node {
    let mut parser = Parser::new(lex(src).expect("source tokenizes"));
    parser.set_require_main(false);
    parser.parse().expect("source parses")
}

#[test]
fn compiles_arithmetic() {
    assert_eq!(
        compile(program("1 + 1 + 1 / 5")),
        Ok("(int)1 + (int)1; + (int)1 / (int)5;;".to_string())
    );
}

#[test]
fn compiles_statements_on_lines() {
    assert_eq!(compile(program("1 x 2.5")), Ok("(int)1\nx\n(float)2.5".to_string()));
}

#[test]
fn compiles_function() {
    assert_eq!(
        compile(program("fn main(a, b) { 1 a }")),
        Ok("void main(a, b) {\n    (int)1;\n    a\n}".to_string())
    );
}

#[test]
fn compiles_typed_identifier_and_call() {
    let typed = Node::TypedIdentifier {
        name: "n".to_string(),
        typ: Box::new(Node::Identifier { name: "int".to_string() }),
    };
    assert_eq!(compile(typed), Ok("n: int".to_string()));
    let call = Node::CallExpr {
        callee: Box::new(Node::Identifier { name: "f".to_string() }),
        args: vec![
            Node::NumericLiteral { typ: "int".to_string(), val: "1".to_string() },
            Node::Identifier { name: "y".to_string() },
        ],
    };
    assert_eq!(compile(call), Ok("f((int)1, y)".to_string()));
}

#[test]
fn variables_have_no_translation() {
    assert_eq!(compile(program("let x = 5")), Err(CompileError::Unsupported));
    assert_eq!(compile(Node::MemberExpr), Err(CompileError::Unsupported));
}

#[test]
fn indent_lines() {
    assert_eq!(indent("a\nb", 2), "  a\n  b\n");
    assert_eq!(indent("a\r\nb\n", 1), " a\n b\n");
    assert_eq!(indent("a\n\nb", 1), " a\n \n b\n");
    assert_eq!(indent("", 4), "");
    assert_eq!(indent("x", 0), "x\n");
}
