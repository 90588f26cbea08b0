use vstd::prelude::*;

verus! {

/// The kind of a token.
#[derive(Debug, Copy, Clone, PartialEq, Eq, Structural)]
pub enum TokeType {
    OpenParen,
    CloseParen,
    OpenBracket,
    CloseBracket,
    OpenBrace,
    CloseBrace,
    Comma,
    Colon,
    Operator,
    Assignment,
    String,
    Int,
    Float,
    Comment,
    Identifier,
    Keyword,
}

/// A classified lexeme: its kind and its text.
#[derive(Debug, Clone)]
pub struct Token {
    pub typ: TokeType,
    pub val: String,
}

/// The mathematical value of a token.
pub struct Lexeme {
    pub kind: TokeType,
    pub text: Seq<char>,
}

impl View for Token {
    type V = Lexeme;

    open spec fn view(&self) -> Lexeme {
        Lexeme { kind: self.typ, text: self.val@ }
    }
}

/// The mathematical value of a sequence of tokens.
pub open spec fn lexemes(ts: Seq<Token>) -> Seq<Lexeme> {
    ts.map_values(|t: Token| t@)
}

impl Token {
    /// A copy of this token.
    pub fn duplicate(&self) -> (r: Token)
        ensures
            r@ == self@,
    {
        Token { typ: self.typ, val: self.val.clone() }
    }
}

/// A node of the syntax tree.
#[derive(Debug)]
#[allow(inconsistent_fields)]
pub enum Node {
    Program { body: Vec<Node> },
    MemberExpr,
    CallExpr { callee: Box<Node>, args: Vec<Node> },
    NumericLiteral { typ: String, val: String },
    Identifier { name: String },
    Variable { name: String },
    TypedIdentifier { name: String, typ: Box<Node> },
    BinaryExpr { left: Box<Node>, right: Box<Node>, operator: String },
    Function { name: String, params: Vec<Node>, body: Vec<Node> },
}

/// The mathematical value of a syntax tree: the same shape, with sequences
/// for the child lists and character sequences for the texts.
#[allow(inconsistent_fields)]
pub enum Ast {
    Program { body: Seq<Ast> },
    MemberExpr,
    CallExpr { callee: Box<Ast>, args: Seq<Ast> },
    NumericLiteral { typ: Seq<char>, val: Seq<char> },
    Identifier { name: Seq<char> },
    Variable { name: Seq<char> },
    TypedIdentifier { name: Seq<char>, typ: Box<Ast> },
    BinaryExpr { left: Box<Ast>, right: Box<Ast>, operator: Seq<char> },
    Function { name: Seq<char>, params: Seq<Ast>, body: Seq<Ast> },
}

pub open spec fn node_model(n: Node) -> Ast
    decreases n,
{
    match n {
        Node::Program { body } => Ast::Program { body: nodes_model(body@) },
        Node::MemberExpr => Ast::MemberExpr,
        Node::CallExpr { callee, args } => Ast::CallExpr {
            callee: Box::new(node_model(*callee)),
            args: nodes_model(args@),
        },
        Node::NumericLiteral { typ, val } => Ast::NumericLiteral { typ: typ@, val: val@ },
        Node::Identifier { name } => Ast::Identifier { name: name@ },
        Node::Variable { name } => Ast::Variable { name: name@ },
        Node::TypedIdentifier { name, typ } => Ast::TypedIdentifier {
            name: name@,
            typ: Box::new(node_model(*typ)),
        },
        Node::BinaryExpr { left, right, operator } => Ast::BinaryExpr {
            left: Box::new(node_model(*left)),
            right: Box::new(node_model(*right)),
            operator: operator@,
        },
        Node::Function { name, params, body } => Ast::Function {
            name: name@,
            params: nodes_model(params@),
            body: nodes_model(body@),
        },
    }
}

pub open spec fn nodes_model(s: Seq<Node>) -> Seq<Ast>
    decreases s,
{
    if s.len() == 0 {
        Seq::empty()
    } else {
        nodes_model(s.subrange(0, s.len() - 1)).push(node_model(s[s.len() - 1]))
    }
}

impl View for Node {
    type V = Ast;

    open spec fn view(&self) -> Ast {
        node_model(*self)
    }
}

/// Pushing a node pushes its model.
pub proof fn lemma_nodes_model_push(s: Seq<Node>, n: Node)
    ensures
        nodes_model(s.push(n)) == nodes_model(s).push(n@),
{
    assert(s.push(n).subrange(0, s.len() as int) =~= s);
}

/// The model of a node list is the list of the nodes' models.
pub proof fn lemma_nodes_model_index(s: Seq<Node>, k: int)
    requires
        0 <= k < s.len(),
    ensures
        nodes_model(s).len() == s.len(),
        nodes_model(s)[k] == node_model(s[k]),
    decreases s.len(),
{
    let init = s.subrange(0, s.len() - 1);
    if k < s.len() - 1 {
        lemma_nodes_model_index(init, k);
    } else {
        lemma_nodes_model_len(init);
    }
}

/// The model of a node list is as long as the list.
pub proof fn lemma_nodes_model_len(s: Seq<Node>)
    ensures
        nodes_model(s).len() == s.len(),
    decreases s.len(),
{
    if s.len() > 0 {
        lemma_nodes_model_len(s.subrange(0, s.len() - 1));
    }
}


/// Whether `a` keeps the invariants of a syntax tree: every binary
/// expression has a non-empty operator, and a `Variable` stands only as the
/// left operand of an `=`.
pub open spec fn well_formed(a: Ast) -> bool
    decreases a,
{
    match a {
        Ast::Program { body } => forall|k: int| 0 <= k < body.len() ==> well_formed(#[trigger] body[k]),
        Ast::Function { params, body, .. } => (forall|k: int|
            0 <= k < params.len() ==> well_formed(#[trigger] params[k])) && (forall|k: int|
            0 <= k < body.len() ==> well_formed(#[trigger] body[k])),
        Ast::CallExpr { callee, args } => well_formed(*callee) && (forall|k: int|
            0 <= k < args.len() ==> well_formed(#[trigger] args[k])),
        Ast::TypedIdentifier { typ, .. } => well_formed(*typ),
        Ast::BinaryExpr { left, right, operator } => operator.len() > 0 && well_formed(*right) && (
        match *left {
            Ast::Variable { .. } => operator == seq!['='],
            _ => well_formed(*left),
        }),
        Ast::Variable { .. } => false,
        _ => true,
    }
}


impl Node {
    /// The operator of a binary expression; `None` for every other node.
    pub fn get_operator(&self) -> (r: Option<String>)
        ensures
            match self@ {
                Ast::BinaryExpr { operator, .. } => r is Some && r->0@ == operator,
                _ => r is None,
            },
    {
        match self {
            Node::BinaryExpr { operator, .. } => Some(operator.clone()),
            _ => None,
        }
    }
}

/// A statement wrapping one node.
pub struct Statement {
    pub(crate) kind: Node,
}

/// A program as a list of statements.
pub struct Program {
    pub body: Vec<Statement>,
}

/// An expression statement.
pub struct Expr {
    pub stmt: Statement,
}

/// Construction of a binary expression from its operands and operator.
pub trait NewBinaryExpr: Sized {
    fn new(left: Expr, right: Expr, op: String) -> Self;
}

/// Property access (reserved; no grammar rule produces it).
pub struct MemberExpr {
    pub expr: Expr,
    pub object: Expr,
    pub property: Expr,
    pub computed: bool,
}

/// A call with its callee and arguments.
pub struct CallExpr {
    pub expr: Expr,
    pub caller: Expr,
    pub arguments: Vec<Expr>,
}

/// A name that is read.
pub struct Identifier {
    pub expr: Expr,
    pub symbol: String,
}

/// A variable declaration.
pub struct VariableDecl {
    pub exp: Expr,
    pub symbol: String,
}

/// An integer literal with its value.
pub struct IntLiteral {
    pub expr: Expr,
    pub value: i64,
}

} // verus!
