//! The parser: tokens to a syntax tree, by precedence climbing.
use vstd::prelude::*;
use crate::types::{
    Ast, Lexeme, Node, TokeType, Token, lemma_nodes_model_index, lemma_nodes_model_len,
    lemma_nodes_model_push, lexemes, node_model, nodes_model, well_formed,
};

verus! {

/// A failure of the parser.
#[derive(Debug)]
pub enum ParseError {
    /// A token that the grammar does not allow where it stands, with the kind
    /// that was required there, if one kind was.
    UnexpectedToken { expected: Option<TokeType>, found: Token },
    UnexpectedEof,
    MissingEntryPoint,
}

/// The mathematical value of a `ParseError`.
pub enum ParseFailure {
    UnexpectedToken { expected: Option<TokeType>, found: Lexeme },
    UnexpectedEof,
    MissingEntryPoint,
}

impl View for ParseError {
    type V = ParseFailure;

    open spec fn view(&self) -> ParseFailure {
        match self {
            ParseError::UnexpectedToken { expected, found } => ParseFailure::UnexpectedToken {
                expected: *expected,
                found: found@,
            },
            ParseError::UnexpectedEof => ParseFailure::UnexpectedEof,
            ParseError::MissingEntryPoint => ParseFailure::MissingEntryPoint,
        }
    }
}

/// A parsed node and the position after it, or a failure.
pub type Parsed = Result<(Ast, int), ParseFailure>;

/// Parsed nodes and the position after them, or a failure.
pub type ParsedList = Result<(Seq<Ast>, int), ParseFailure>;

/// The tokens without the comments.
pub open spec fn without_comments(ts: Seq<Lexeme>) -> Seq<Lexeme>
    decreases ts.len(),
{
    if ts.len() == 0 {
        ts
    } else {
        let init = without_comments(ts.subrange(0, ts.len() - 1));
        if ts[ts.len() - 1].kind == TokeType::Comment {
            init
        } else {
            init.push(ts[ts.len() - 1])
        }
    }
}

/// The position after a token of kind `kind` required at `i`.
pub open spec fn expect_at(ts: Seq<Lexeme>, i: int, kind: TokeType) -> Result<int, ParseFailure> {
    if i < 0 || i >= ts.len() {
        Err(ParseFailure::UnexpectedEof)
    } else if ts[i].kind == kind {
        Ok(i + 1)
    } else {
        Err(ParseFailure::UnexpectedToken { expected: Some(kind), found: ts[i] })
    }
}

/// `name = value` as a node: declarations and assignments alike.
pub open spec fn assignment(name: Seq<char>, value: Ast) -> Ast {
    Ast::BinaryExpr {
        left: Box::new(Ast::Variable { name }),
        right: Box::new(value),
        operator: seq!['='],
    }
}

/// Whether `t` is `+` or `-`.
pub open spec fn is_additive_op(t: Lexeme) -> bool {
    t.kind == TokeType::Operator && (t.text == seq!['+'] || t.text == seq!['-'])
}

/// Whether `t` is `*`, `/` or `%`.
pub open spec fn is_multiplicative_op(t: Lexeme) -> bool {
    t.kind == TokeType::Operator && (t.text == seq!['*'] || t.text == seq!['/'] || t.text
        == seq!['%'])
}

// In the functions below a position never moves back: the tests `i < j` and
// `j <= ts.len()` on a position `j` returned by a nested parse always hold
// (`lemma_parse_advances`), and show the termination check that each
// recursion makes progress.
/// PrimaryExpr at `i`.
pub open spec fn parse_primary(ts: Seq<Lexeme>, i: int) -> Parsed
    decreases ts.len() - i, 0int,
{
    if i < 0 || i >= ts.len() {
        Err(ParseFailure::UnexpectedEof)
    } else {
        let tok = ts[i];
        if tok.kind == TokeType::Identifier {
            if i + 1 < ts.len() && ts[i + 1].kind == TokeType::Assignment {
                match parse_additive(ts, i + 2) {
                    Ok((value, j)) => Ok((assignment(tok.text, value), j)),
                    Err(e) => Err(e),
                }
            } else {
                Ok((Ast::Identifier { name: tok.text }, i + 1))
            }
        } else if tok.kind == TokeType::Int {
            Ok((Ast::NumericLiteral { typ: seq!['i', 'n', 't'], val: tok.text }, i + 1))
        } else if tok.kind == TokeType::Float {
            Ok((Ast::NumericLiteral { typ: seq!['f', 'l', 'o', 'a', 't'], val: tok.text }, i + 1))
        } else if tok.kind == TokeType::OpenParen {
            match parse_additive(ts, i + 1) {
                Ok((inner, j)) => match expect_at(ts, j, TokeType::CloseParen) {
                    Ok(k) => Ok((inner, k)),
                    Err(e) => Err(e),
                },
                Err(e) => Err(e),
            }
        } else if tok.kind == TokeType::Keyword && (tok.text == seq!['c', 'o', 'n', 's', 't']
            || tok.text == seq!['l', 'e', 't']) {
            match expect_at(ts, i + 1, TokeType::Identifier) {
                Err(e) => Err(e),
                Ok(_) => match expect_at(ts, i + 2, TokeType::Assignment) {
                    Err(e) => Err(e),
                    Ok(_) => match parse_additive(ts, i + 3) {
                        Ok((value, j)) => Ok((assignment(ts[i + 1].text, value), j)),
                        Err(e) => Err(e),
                    },
                },
            }
        } else if tok.kind == TokeType::Keyword && tok.text == seq!['f', 'n'] {
            match expect_at(ts, i + 1, TokeType::Identifier) {
                Err(e) => Err(e),
                Ok(_) => match expect_at(ts, i + 2, TokeType::OpenParen) {
                    Err(e) => Err(e),
                    Ok(_) => match parse_params(ts, i + 3) {
                        Err(e) => Err(e),
                        Ok((params, j)) => match expect_at(ts, j, TokeType::CloseParen) {
                            Err(e) => Err(e),
                            Ok(_) => match expect_at(ts, j + 1, TokeType::OpenBrace) {
                                Err(e) => Err(e),
                                Ok(_) => if i < j {
                                    match parse_block(ts, j + 2) {
                                        Err(e) => Err(e),
                                        Ok((body, k)) => match expect_at(
                                            ts,
                                            k,
                                            TokeType::CloseBrace,
                                        ) {
                                            Err(e) => Err(e),
                                            Ok(end) => Ok(
                                                (
                                                    Ast::Function {
                                                        name: ts[i + 1].text,
                                                        params,
                                                        body,
                                                    },
                                                    end,
                                                ),
                                            ),
                                        },
                                    }
                                } else {
                                    Err(ParseFailure::UnexpectedEof)
                                },
                            },
                        },
                    },
                },
            }
        } else {
            Err(ParseFailure::UnexpectedToken { expected: None, found: tok })
        }
    }
}

/// The parameters of a function from `i` on: identifiers, each optionally
/// followed by a comma.
pub open spec fn parse_params(ts: Seq<Lexeme>, i: int) -> ParsedList
    decreases ts.len() - i, 3int,
{
    if 0 <= i < ts.len() && ts[i].kind == TokeType::Identifier {
        match parse_primary(ts, i) {
            Err(e) => Err(e),
            Ok((p, j)) => if !(i < j && j <= ts.len()) {
                Err(ParseFailure::UnexpectedEof)
            } else if j == ts.len() {
                Err(ParseFailure::UnexpectedEof)
            } else {
                let k = if ts[j].kind == TokeType::Comma {
                    j + 1
                } else {
                    j
                };
                match parse_params(ts, k) {
                    Ok((ps, e)) => Ok((seq![p] + ps, e)),
                    Err(e) => Err(e),
                }
            },
        }
    } else {
        Ok((Seq::empty(), i))
    }
}

/// The statements of a function body from `i` on, up to a closing brace or
/// the end of input.
pub open spec fn parse_block(ts: Seq<Lexeme>, i: int) -> ParsedList
    decreases ts.len() - i, 3int,
{
    if 0 <= i < ts.len() && ts[i].kind != TokeType::CloseBrace {
        match parse_additive(ts, i) {
            Err(e) => Err(e),
            Ok((s, j)) => if !(i < j && j <= ts.len()) {
                Err(ParseFailure::UnexpectedEof)
            } else {
                match parse_block(ts, j) {
                    Ok((ss, e)) => Ok((seq![s] + ss, e)),
                    Err(e) => Err(e),
                }
            },
        }
    } else {
        Ok((Seq::empty(), i))
    }
}

/// MultiplicativeExpr at `i`.
pub open spec fn parse_multiplicative(ts: Seq<Lexeme>, i: int) -> Parsed
    decreases ts.len() - i, 1int,
{
    match parse_primary(ts, i) {
        Err(e) => Err(e),
        Ok((left, j)) => if !(i < j && j <= ts.len()) {
            Err(ParseFailure::UnexpectedEof)
        } else {
            multiplicative_rest(ts, j, left)
        },
    }
}

/// The operations `("*"|"/"|"%") PrimaryExpr` from `i` on, folded to the
/// left onto `left`.
pub open spec fn multiplicative_rest(ts: Seq<Lexeme>, i: int, left: Ast) -> Parsed
    decreases ts.len() - i, 1int,
{
    if 0 <= i < ts.len() && is_multiplicative_op(ts[i]) {
        match parse_primary(ts, i + 1) {
            Err(e) => Err(e),
            Ok((right, j)) => if !(i < j && j <= ts.len()) {
                Err(ParseFailure::UnexpectedEof)
            } else {
                multiplicative_rest(
                    ts,
                    j,
                    Ast::BinaryExpr {
                        left: Box::new(left),
                        right: Box::new(right),
                        operator: ts[i].text,
                    },
                )
            },
        }
    } else {
        Ok((left, i))
    }
}

/// AdditiveExpr at `i`.
pub open spec fn parse_additive(ts: Seq<Lexeme>, i: int) -> Parsed
    decreases ts.len() - i, 2int,
{
    match parse_multiplicative(ts, i) {
        Err(e) => Err(e),
        Ok((left, j)) => if !(i < j && j <= ts.len()) {
            Err(ParseFailure::UnexpectedEof)
        } else {
            additive_rest(ts, j, left)
        },
    }
}

/// The operations `("+"|"-") MultiplicativeExpr` from `i` on, folded to the
/// left onto `left`.
pub open spec fn additive_rest(ts: Seq<Lexeme>, i: int, left: Ast) -> Parsed
    decreases ts.len() - i, 2int,
{
    if 0 <= i < ts.len() && is_additive_op(ts[i]) {
        match parse_multiplicative(ts, i + 1) {
            Err(e) => Err(e),
            Ok((right, j)) => if !(i < j && j <= ts.len()) {
                Err(ParseFailure::UnexpectedEof)
            } else {
                additive_rest(
                    ts,
                    j,
                    Ast::BinaryExpr {
                        left: Box::new(left),
                        right: Box::new(right),
                        operator: ts[i].text,
                    },
                )
            },
        }
    } else {
        Ok((left, i))
    }
}

/// The statements from `i` to the end of input.
pub open spec fn parse_statements(ts: Seq<Lexeme>, i: int) -> ParsedList
    decreases ts.len() - i,
{
    if 0 <= i < ts.len() {
        match parse_additive(ts, i) {
            Err(e) => Err(e),
            Ok((s, j)) => if !(i < j && j <= ts.len()) {
                Err(ParseFailure::UnexpectedEof)
            } else {
                match parse_statements(ts, j) {
                    Ok((ss, e)) => Ok((seq![s] + ss, e)),
                    Err(e) => Err(e),
                }
            },
        }
    } else {
        Ok((Seq::empty(), i))
    }
}

/// Whether `body` holds a function named `main`.
pub open spec fn has_main(body: Seq<Ast>) -> bool {
    exists|k: int|
        0 <= k < body.len() && (#[trigger] body[k]) is Function && body[k]->Function_name
            == seq!['m', 'a', 'i', 'n']
}

/// The program that the tokens from `i` on make; with `require_main`, a
/// program without a function `main` fails with `MissingEntryPoint`.
pub open spec fn parse_program(ts: Seq<Lexeme>, i: int, require_main: bool) -> Result<
    Ast,
    ParseFailure,
> {
    match parse_statements(ts, i) {
        Err(e) => Err(e),
        Ok((body, _)) => if require_main && !has_main(body) {
            Err(ParseFailure::MissingEntryPoint)
        } else {
            Ok(Ast::Program { body })
        },
    }
}

/// The outcome of a parse as mathematical values, `pos` being the position
/// reached.
pub open spec fn parsed(r: Result<Node, ParseError>, pos: int) -> Parsed {
    match r {
        Ok(n) => Ok((n@, pos)),
        Err(e) => Err(e@),
    }
}

/// The outcome of a parse of a whole program as mathematical values.
pub open spec fn program_outcome(r: Result<Node, ParseError>) -> Result<Ast, ParseFailure> {
    match r {
        Ok(n) => Ok(n@),
        Err(e) => Err(e@),
    }
}

/// The outcome of a parse of a list as mathematical values, `pos` being
/// the position reached.
pub open spec fn parsed_list(r: Result<Vec<Node>, ParseError>, pos: int) -> ParsedList {
    match r {
        Ok(v) => Ok((nodes_model(v@), pos)),
        Err(e) => Err(e@),
    }
}

/// Nodes parsed so far in front of the outcome of the rest.
pub open spec fn prefix_nodes(p: Seq<Ast>, r: ParsedList) -> ParsedList {
    match r {
        Ok((ss, e)) => Ok((p + ss, e)),
        Err(e) => Err(e),
    }
}

proof fn lemma_prefix_nodes_push(p: Seq<Ast>, x: Ast, r: ParsedList)
    ensures
        prefix_nodes(p, prefix_nodes(seq![x], r)) == prefix_nodes(p.push(x), r),
{
    if let Ok((ss, e)) = r {
        assert(p + (seq![x] + ss) =~= p.push(x) + ss);
    }
}

proof fn lemma_prefix_nodes_empty(p: Seq<Ast>, i: int)
    ensures
        prefix_nodes(p, Ok((Seq::empty(), i))) == Ok::<(Seq<Ast>, int), ParseFailure>((p, i)),
{
    assert(p + Seq::<Ast>::empty() =~= p);
}

/// Whether `s` holds exactly the characters of `lit`.
fn text_is(s: &String, lit: &str) -> (r: bool)
    ensures
        r == (s@ == lit@),
{
    let other = lit.to_owned();
    *s == other
}

/// The string of `lit`.
fn text_of(lit: &str) -> (r: String)
    ensures
        r@ == lit@,
{
    lit.to_owned()
}

/// A parser over a buffer of tokens, with a cursor on the next unread one.
pub struct Parser {
    pub tokens: Vec<Token>,
    pos: usize,
    require_main: bool,
}

impl Parser {
    /// The tokens, as mathematical values.
    pub closed spec fn lexemes(&self) -> Seq<Lexeme> {
        lexemes(self.tokens@)
    }

    /// The position of the next unread token.
    pub closed spec fn position(&self) -> int {
        self.pos as int
    }

    /// Whether a program must hold a function `main`.
    pub closed spec fn requires_main(&self) -> bool {
        self.require_main
    }

    pub closed spec fn wf(&self) -> bool {
        self.pos <= self.tokens.len()
    }

    /// A parser over `tokens` without their comments, at the first token,
    /// that requires a function `main`.
    pub fn new(tokens: Vec<Token>) -> (r: Self)
        ensures
            r.wf(),
            r.lexemes() == without_comments(lexemes(tokens@)),
            r.position() == 0,
            r.requires_main(),
    {
        let mut kept: Vec<Token> = Vec::new();
        let mut k: usize = 0;
        while k < tokens.len()
            invariant
                k <= tokens.len(),
                lexemes(kept@) == without_comments(lexemes(tokens@).subrange(0, k as int)),
            decreases tokens.len() - k,
        {
            let ghost before = kept@;
            let ghost all = lexemes(tokens@);
            assert(all.subrange(0, k + 1).subrange(0, k as int) =~= all.subrange(0, k as int));
            if tokens[k].typ != TokeType::Comment {
                kept.push(tokens[k].duplicate());
                assert(lexemes(kept@) =~= lexemes(before).push(all[k as int]));
            } else {
                assert(lexemes(kept@) =~= lexemes(before));
            }
            k = k + 1;
        }
        assert(lexemes(tokens@).subrange(0, tokens.len() as int) =~= lexemes(tokens@));
        Parser { tokens: kept, pos: 0, require_main: true }
    }

    /// Sets whether `parse` requires a function `main`.
    pub fn set_require_main(&mut self, on: bool)
        requires
            old(self).wf(),
        ensures
            final(self).wf(),
            final(self).lexemes() == old(self).lexemes(),
            final(self).position() == old(self).position(),
            final(self).requires_main() == on,
    {
        self.require_main = on;
    }

    /// Parses the program made by all the remaining tokens.
    pub fn parse(&mut self) -> (r: Result<Node, ParseError>)
        requires
            old(self).wf(),
        ensures
            final(self).wf(),
            final(self).lexemes() == old(self).lexemes(),
            program_outcome(r) == parse_program(
                old(self).lexemes(),
                old(self).position(),
                old(self).requires_main(),
            ),
    {
        let ghost ts = self.lexemes();
        let ghost i0 = self.pos as int;
        let mut body: Vec<Node> = Vec::new();
        proof {
            lemma_prefix_nodes_empty_list(parse_statements(ts, i0));
        }
        while !self.eof()
            invariant
                self.wf(),
                self.lexemes() == ts,
                ts == old(self).lexemes(),
                i0 == old(self).pos,
                self.require_main == old(self).require_main,
                parse_statements(ts, i0) == prefix_nodes(
                    nodes_model(body@),
                    parse_statements(ts, self.pos as int),
                ),
            decreases self.tokens.len() - self.pos,
        {
            let ghost i = self.pos as int;
            match self.parse_additive_expr() {
                Err(e) => {
                    return Err(e);
                },
                Ok(s) => {
                    proof {
                        lemma_prefix_nodes_push(
                            nodes_model(body@),
                            s@,
                            parse_statements(ts, self.pos as int),
                        );
                        lemma_nodes_model_push(body@, s);
                    }
                    body.push(s);
                },
            }
        }
        proof {
            lemma_prefix_nodes_empty(nodes_model(body@), self.pos as int);
        }
        if self.require_main && !contains_main(&body) {
            return Err(ParseError::MissingEntryPoint);
        }
        Ok(Node::Program { body })
    }

    /// Whether every token has been read.
    fn eof(&self) -> (r: bool)
        requires
            self.wf(),
        ensures
            r == (self.pos >= self.tokens.len()),
    {
        self.pos >= self.tokens.len()
    }

    /// The next unread token.
    fn at(&self) -> (r: Result<&Token, ParseError>)
        requires
            self.wf(),
        ensures
            self.pos < self.tokens.len() ==> r is Ok && *r->Ok_0 == self.tokens@[self.pos as int],
            self.pos >= self.tokens.len() ==> r is Err && r->Err_0@ == ParseFailure::UnexpectedEof,
    {
        if self.pos < self.tokens.len() {
            Ok(&self.tokens[self.pos])
        } else {
            Err(ParseError::UnexpectedEof)
        }
    }

    /// Reads the next token.
    fn consume(&mut self) -> (r: Result<Token, ParseError>)
        requires
            old(self).wf(),
        ensures
            final(self).wf(),
            final(self).tokens == old(self).tokens,
            final(self).require_main == old(self).require_main,
            old(self).pos < old(self).tokens.len() ==> r is Ok && r->Ok_0@ == old(
                self,
            ).lexemes()[old(self).pos as int] && final(self).pos == old(self).pos + 1,
            old(self).pos >= old(self).tokens.len() ==> r is Err && r->Err_0@
                == ParseFailure::UnexpectedEof && final(self).pos == old(self).pos,
    {
        match self.at() {
            Ok(t) => {
                let tok = t.duplicate();
                self.pos = self.pos + 1;
                Ok(tok)
            },
            Err(e) => Err(e),
        }
    }

    /// Reads the next token, which must be of kind `typ`.
    fn expect(&mut self, typ: TokeType) -> (r: Result<Token, ParseError>)
        requires
            old(self).wf(),
        ensures
            final(self).wf(),
            final(self).tokens == old(self).tokens,
            final(self).require_main == old(self).require_main,
            match expect_at(old(self).lexemes(), old(self).pos as int, typ) {
                Ok(j) => r is Ok && final(self).pos == j && r->Ok_0@ == old(self).lexemes()[old(
                    self,
                ).pos as int],
                Err(e) => r is Err && r->Err_0@ == e,
            },
    {
        match self.consume() {
            Ok(tok) => {
                if tok.typ == typ {
                    Ok(tok)
                } else {
                    Err(ParseError::UnexpectedToken { expected: Some(typ), found: tok })
                }
            },
            Err(e) => Err(e),
        }
    }

    /// Whether the next unread token is an operator of `*`, `/` and `%`.
    fn at_multiplicative_op(&self) -> (r: bool)
        requires
            self.wf(),
        ensures
            r == (self.pos < self.tokens.len() && is_multiplicative_op(
                self.lexemes()[self.pos as int],
            )),
    {
        proof {
            reveal_strlit("*");
            assert("*"@ =~= seq!['*']);
            reveal_strlit("/");
            assert("/"@ =~= seq!['/']);
            reveal_strlit("%");
            assert("%"@ =~= seq!['%']);
        }
        match self.at() {
            Ok(t) => t.typ == TokeType::Operator && (text_is(&t.val, "*") || text_is(&t.val, "/")
                || text_is(&t.val, "%")),
            Err(_) => false,
        }
    }

    /// Whether the next unread token is an operator of `+` and `-`.
    fn at_additive_op(&self) -> (r: bool)
        requires
            self.wf(),
        ensures
            r == (self.pos < self.tokens.len() && is_additive_op(self.lexemes()[self.pos as int])),
    {
        proof {
            reveal_strlit("+");
            assert("+"@ =~= seq!['+']);
            reveal_strlit("-");
            assert("-"@ =~= seq!['-']);
        }
        match self.at() {
            Ok(t) => t.typ == TokeType::Operator && (text_is(&t.val, "+") || text_is(&t.val, "-")),
            Err(_) => false,
        }
    }

    /// Whether the next unread token is of kind `typ`.
    fn at_kind(&self, typ: TokeType) -> (r: bool)
        requires
            self.wf(),
        ensures
            r == (self.pos < self.tokens.len() && self.lexemes()[self.pos as int].kind == typ),
    {
        match self.at() {
            Ok(t) => t.typ == typ,
            Err(_) => false,
        }
    }

    /// Parses a PrimaryExpr.
    fn parse_primary_expr(&mut self) -> (r: Result<Node, ParseError>)
        requires
            old(self).wf(),
        ensures
            final(self).wf(),
            final(self).tokens == old(self).tokens,
            final(self).require_main == old(self).require_main,
            parsed(r, final(self).pos as int) == parse_primary(
                old(self).lexemes(),
                old(self).pos as int,
            ),
            r is Ok ==> old(self).pos < final(self).pos,
        decreases old(self).tokens.len() - old(self).pos, 0int,
    {
        let ghost ts = self.lexemes();
        let ghost i = self.pos as int;
        proof {
            reveal_with_fuel(node_model, 2);
            reveal_strlit("=");
            assert("="@ =~= seq!['=']);
            reveal_strlit("int");
            assert("int"@ =~= seq!['i', 'n', 't']);
            reveal_strlit("float");
            assert("float"@ =~= seq!['f', 'l', 'o', 'a', 't']);
            reveal_strlit("const");
            assert("const"@ =~= seq!['c', 'o', 'n', 's', 't']);
            reveal_strlit("let");
            assert("let"@ =~= seq!['l', 'e', 't']);
            reveal_strlit("fn");
            assert("fn"@ =~= seq!['f', 'n']);
        }
        let node = match self.consume() {
            Ok(t) => t,
            Err(e) => {
                return Err(e);
            },
        };
        if node.typ == TokeType::Identifier {
            if self.at_kind(TokeType::Assignment) {
                match self.expect(TokeType::Assignment) {
                    Ok(_) => {},
                    Err(e) => {
                        return Err(e);
                    },
                }
                let value = match self.parse_additive_expr() {
                    Ok(v) => v,
                    Err(e) => {
                        return Err(e);
                    },
                };
                return Ok(
                    Node::BinaryExpr {
                        left: Box::new(Node::Variable { name: node.val }),
                        right: Box::new(value),
                        operator: text_of("="),
                    },
                );
            }
            return Ok(Node::Identifier { name: node.val });
        }
        if node.typ == TokeType::Int {
            return Ok(Node::NumericLiteral { typ: text_of("int"), val: node.val });
        }
        if node.typ == TokeType::Float {
            return Ok(Node::NumericLiteral { typ: text_of("float"), val: node.val });
        }
        if node.typ == TokeType::OpenParen {
            let inner = match self.parse_additive_expr() {
                Ok(v) => v,
                Err(e) => {
                    return Err(e);
                },
            };
            return match self.expect(TokeType::CloseParen) {
                Ok(_) => Ok(inner),
                Err(e) => Err(e),
            };
        }
        if node.typ == TokeType::Keyword && (text_is(&node.val, "const") || text_is(
            &node.val,
            "let",
        )) {
            return self.parse_declaration();
        }
        if node.typ == TokeType::Keyword && text_is(&node.val, "fn") {
            return self.parse_function();
        }
        Err(ParseError::UnexpectedToken { expected: None, found: node })
    }

    /// Parses the rest of a declaration, after its keyword.
    fn parse_declaration(&mut self) -> (r: Result<Node, ParseError>)
        requires
            old(self).wf(),
            0 < old(self).pos,
            old(self).lexemes()[old(self).pos - 1].kind == TokeType::Keyword,
            old(self).lexemes()[old(self).pos - 1].text == seq!['c', 'o', 'n', 's', 't']
                || old(self).lexemes()[old(self).pos - 1].text == seq!['l', 'e', 't'],
        ensures
            final(self).wf(),
            final(self).tokens == old(self).tokens,
            final(self).require_main == old(self).require_main,
            parsed(r, final(self).pos as int) == parse_primary(
                old(self).lexemes(),
                old(self).pos - 1,
            ),
            r is Ok ==> old(self).pos < final(self).pos,
        decreases old(self).tokens.len() - old(self).pos, 0int,
    {
        proof {
            reveal_with_fuel(node_model, 2);
            reveal_strlit("=");
            assert("="@ =~= seq!['=']);
        }
        let name = match self.expect(TokeType::Identifier) {
            Ok(t) => t.val,
            Err(e) => {
                return Err(e);
            },
        };
        match self.expect(TokeType::Assignment) {
            Ok(_) => {},
            Err(e) => {
                return Err(e);
            },
        }
        let value = match self.parse_additive_expr() {
            Ok(v) => v,
            Err(e) => {
                return Err(e);
            },
        };
        let r = Node::BinaryExpr {
            left: Box::new(Node::Variable { name }),
            right: Box::new(value),
            operator: text_of("="),
        };
        Ok(r)
    }

    /// Parses the rest of a function definition, after `fn`.
    fn parse_function(&mut self) -> (r: Result<Node, ParseError>)
        requires
            old(self).wf(),
            0 < old(self).pos,
            old(self).lexemes()[old(self).pos - 1].kind == TokeType::Keyword,
            old(self).lexemes()[old(self).pos - 1].text == seq!['f', 'n'],
        ensures
            final(self).wf(),
            final(self).tokens == old(self).tokens,
            final(self).require_main == old(self).require_main,
            parsed(r, final(self).pos as int) == parse_primary(
                old(self).lexemes(),
                old(self).pos - 1,
            ),
            r is Ok ==> old(self).pos < final(self).pos,
        decreases old(self).tokens.len() - old(self).pos, 0int,
    {
        let ghost ts = self.lexemes();
        let ghost i = self.pos - 1;
        assert(ts[i].text != seq!['c', 'o', 'n', 's', 't'] && ts[i].text != seq!['l', 'e', 't'])
            by {
            assert(seq!['f', 'n'].len() == 2);
            assert(seq!['l', 'e', 't'].len() == 3);
            assert(seq!['c', 'o', 'n', 's', 't'].len() == 5);
        }
        let name = match self.expect(TokeType::Identifier) {
            Ok(t) => t.val,
            Err(e) => {
                return Err(e);
            },
        };
        match self.expect(TokeType::OpenParen) {
            Ok(_) => {},
            Err(e) => {
                return Err(e);
            },
        }
        let params = match self.parse_param_list() {
            Ok(v) => v,
            Err(e) => {
                return Err(e);
            },
        };
        let ghost j = self.pos as int;
        match self.expect(TokeType::CloseParen) {
            Ok(_) => {},
            Err(e) => {
                return Err(e);
            },
        }
        match self.expect(TokeType::OpenBrace) {
            Ok(_) => {},
            Err(e) => {
                return Err(e);
            },
        }
        let body = match self.parse_block_body() {
            Ok(v) => v,
            Err(e) => {
                return Err(e);
            },
        };
        match self.expect(TokeType::CloseBrace) {
            Ok(_) => Ok(Node::Function { name, params, body }),
            Err(e) => Err(e),
        }
    }

    /// Parses the parameters of a function up to (not including) the
    /// closing parenthesis.
    fn parse_param_list(&mut self) -> (r: Result<Vec<Node>, ParseError>)
        requires
            old(self).wf(),
        ensures
            final(self).wf(),
            final(self).tokens == old(self).tokens,
            final(self).require_main == old(self).require_main,
            parsed_list(r, final(self).pos as int) == parse_params(
                old(self).lexemes(),
                old(self).pos as int,
            ),
            r is Ok ==> old(self).pos <= final(self).pos,
        decreases old(self).tokens.len() - old(self).pos, 3int,
    {
        let ghost ts = self.lexemes();
        let ghost i = self.pos as int;
        let mut params: Vec<Node> = Vec::new();
        proof {
            lemma_prefix_nodes_empty_list(parse_params(ts, i));
        }
        while self.at_kind(TokeType::Identifier)
            invariant
                self.wf(),
                self.lexemes() == ts,
                ts == old(self).lexemes(),
                i == old(self).pos,
                self.tokens == old(self).tokens,
                self.require_main == old(self).require_main,
                i <= self.pos,
                parse_params(ts, i) == prefix_nodes(
                    nodes_model(params@),
                    parse_params(ts, self.pos as int),
                ),
            decreases self.tokens.len() - self.pos,
        {
            let p = match self.parse_primary_expr() {
                Ok(v) => v,
                Err(e) => {
                    return Err(e);
                },
            };
            if self.eof() {
                return Err(ParseError::UnexpectedEof);
            }
            if self.at_kind(TokeType::Comma) {
                match self.consume() {
                    Ok(_) => {},
                    Err(e) => {
                        return Err(e);
                    },
                }
            }
            proof {
                lemma_prefix_nodes_push(
                    nodes_model(params@),
                    p@,
                    parse_params(ts, self.pos as int),
                );
                lemma_nodes_model_push(params@, p);
            }
            params.push(p);
        }
        proof {
            lemma_prefix_nodes_empty(nodes_model(params@), self.pos as int);
        }
        Ok(params)
    }

    /// Parses the statements of a function body up to (not including) the
    /// closing brace.
    fn parse_block_body(&mut self) -> (r: Result<Vec<Node>, ParseError>)
        requires
            old(self).wf(),
        ensures
            final(self).wf(),
            final(self).tokens == old(self).tokens,
            final(self).require_main == old(self).require_main,
            parsed_list(r, final(self).pos as int) == parse_block(
                old(self).lexemes(),
                old(self).pos as int,
            ),
            r is Ok ==> old(self).pos <= final(self).pos,
        decreases old(self).tokens.len() - old(self).pos, 3int,
    {
        let ghost ts = self.lexemes();
        let ghost i = self.pos as int;
        let mut body: Vec<Node> = Vec::new();
        proof {
            lemma_prefix_nodes_empty_list(parse_block(ts, i));
        }
        while !self.eof() && !self.at_kind(TokeType::CloseBrace)
            invariant
                self.wf(),
                self.lexemes() == ts,
                ts == old(self).lexemes(),
                i == old(self).pos,
                self.tokens == old(self).tokens,
                self.require_main == old(self).require_main,
                i <= self.pos,
                parse_block(ts, i) == prefix_nodes(
                    nodes_model(body@),
                    parse_block(ts, self.pos as int),
                ),
            decreases self.tokens.len() - self.pos,
        {
            let s = match self.parse_additive_expr() {
                Ok(v) => v,
                Err(e) => {
                    return Err(e);
                },
            };
            proof {
                lemma_prefix_nodes_push(
                    nodes_model(body@),
                    s@,
                    parse_block(ts, self.pos as int),
                );
                lemma_nodes_model_push(body@, s);
            }
            body.push(s);
        }
        proof {
            lemma_prefix_nodes_empty(nodes_model(body@), self.pos as int);
        }
        Ok(body)
    }

    /// Parses an AdditiveExpr.
    fn parse_additive_expr(&mut self) -> (r: Result<Node, ParseError>)
        requires
            old(self).wf(),
        ensures
            final(self).wf(),
            final(self).tokens == old(self).tokens,
            final(self).require_main == old(self).require_main,
            parsed(r, final(self).pos as int) == parse_additive(
                old(self).lexemes(),
                old(self).pos as int,
            ),
            r is Ok ==> old(self).pos < final(self).pos,
        decreases old(self).tokens.len() - old(self).pos, 2int,
    {
        let ghost ts = self.lexemes();
        let ghost i0 = self.pos as int;
        let mut left = match self.parse_multiplicative_expr() {
            Ok(n) => n,
            Err(e) => {
                return Err(e);
            },
        };
        while self.at_additive_op()
            invariant
                self.wf(),
                self.lexemes() == ts,
                ts == old(self).lexemes(),
                i0 == old(self).pos,
                self.tokens == old(self).tokens,
                self.require_main == old(self).require_main,
                i0 < self.pos,
                parse_additive(ts, i0) == additive_rest(ts, self.pos as int, left@),
            decreases self.tokens.len() - self.pos,
        {
            let op = match self.expect(TokeType::Operator) {
                Ok(t) => t,
                Err(e) => {
                    return Err(e);
                },
            };
            let right = match self.parse_multiplicative_expr() {
                Ok(n) => n,
                Err(e) => {
                    return Err(e);
                },
            };
            left = Node::BinaryExpr { left: Box::new(left), right: Box::new(right), operator: op.val };
        }
        Ok(left)
    }

    /// Parses a MultiplicativeExpr.
    fn parse_multiplicative_expr(&mut self) -> (r: Result<Node, ParseError>)
        requires
            old(self).wf(),
        ensures
            final(self).wf(),
            final(self).tokens == old(self).tokens,
            final(self).require_main == old(self).require_main,
            parsed(r, final(self).pos as int) == parse_multiplicative(
                old(self).lexemes(),
                old(self).pos as int,
            ),
            r is Ok ==> old(self).pos < final(self).pos,
        decreases old(self).tokens.len() - old(self).pos, 1int,
    {
        let ghost ts = self.lexemes();
        let ghost i0 = self.pos as int;
        let mut left = match self.parse_primary_expr() {
            Ok(n) => n,
            Err(e) => {
                return Err(e);
            },
        };
        while self.at_multiplicative_op()
            invariant
                self.wf(),
                self.lexemes() == ts,
                ts == old(self).lexemes(),
                i0 == old(self).pos,
                self.tokens == old(self).tokens,
                self.require_main == old(self).require_main,
                i0 < self.pos,
                parse_multiplicative(ts, i0) == multiplicative_rest(ts, self.pos as int, left@),
            decreases self.tokens.len() - self.pos,
        {
            let op = match self.expect(TokeType::Operator) {
                Ok(t) => t,
                Err(e) => {
                    return Err(e);
                },
            };
            let right = match self.parse_primary_expr() {
                Ok(n) => n,
                Err(e) => {
                    return Err(e);
                },
            };
            left = Node::BinaryExpr { left: Box::new(left), right: Box::new(right), operator: op.val };
        }
        Ok(left)
    }
}

proof fn lemma_prefix_nodes_empty_list(r: ParsedList)
    ensures
        prefix_nodes(Seq::empty(), r) == r,
{
    if let Ok((ss, e)) = r {
        assert(Seq::<Ast>::empty() + ss =~= ss);
    }
}

/// Whether `body` holds a function named `main`.
fn contains_main(body: &Vec<Node>) -> (r: bool)
    ensures
        r == has_main(nodes_model(body@)),
{
    let mut k: usize = 0;
    proof {
        lemma_nodes_model_len(body@);
    }
    while k < body.len()
        invariant
            k <= body.len(),
            nodes_model(body@).len() == body.len(),
            forall|m: int|
                0 <= m < k ==> !((#[trigger] nodes_model(body@)[m]) is Function && nodes_model(
                    body@,
                )[m]->Function_name == seq!['m', 'a', 'i', 'n']),
        decreases body.len() - k,
    {
        proof {
            lemma_nodes_model_index(body@, k as int);
        }
        if let Node::Function { name, .. } = &body[k] {
            if text_is(name, "main") {
                proof {
                    reveal_strlit("main");
            assert("main"@ =~= seq!['m', 'a', 'i', 'n']);
                }
                assert(nodes_model(body@)[k as int] is Function);
                return true;
            }
            proof {
                reveal_strlit("main");
            assert("main"@ =~= seq!['m', 'a', 'i', 'n']);
            }
        }
        k = k + 1;
    }
    false
}

/// Every program that the parser builds keeps the invariants of a syntax
/// tree: each binary expression has an operator, and a `Variable` stands only
/// as the left operand of an `=`.
pub proof fn lemma_parse_program_well_formed(ts: Seq<Lexeme>, i: int, require_main: bool)
    ensures
        parse_program(ts, i, require_main) is Ok ==> well_formed(
            parse_program(ts, i, require_main)->Ok_0,
        ),
{
    lemma_statements_result(ts, i);
}

/// An expression that parses takes at least one token, and no more than
/// there are.
pub proof fn lemma_parse_advances(ts: Seq<Lexeme>, i: int)
    ensures
        parse_additive(ts, i) is Ok ==> i < (parse_additive(ts, i)->Ok_0).1 <= ts.len(),
        parse_multiplicative(ts, i) is Ok ==> i < (parse_multiplicative(ts, i)->Ok_0).1 <= ts.len(),
        parse_primary(ts, i) is Ok ==> i < (parse_primary(ts, i)->Ok_0).1 <= ts.len(),
{
    lemma_additive_result(ts, i);
    lemma_multiplicative_result(ts, i);
    lemma_primary_result(ts, i);
}

proof fn lemma_statements_result(ts: Seq<Lexeme>, i: int)
    ensures
        parse_statements(ts, i) is Ok ==> all_well_formed((parse_statements(ts, i)->Ok_0).0),
    decreases ts.len() - i,
{
    if 0 <= i < ts.len() {
        lemma_additive_result(ts, i);
        if let Ok((s, j)) = parse_additive(ts, i) {
            if i < j && j <= ts.len() {
                lemma_statements_result(ts, j);
                if let Ok((ss, _)) = parse_statements(ts, j) {
                    lemma_all_well_formed_cons(s, ss);
                }
            }
        }
    }
}

/// Whether every tree of `s` is well formed.
pub open spec fn all_well_formed(s: Seq<Ast>) -> bool {
    forall|k: int| 0 <= k < s.len() ==> well_formed(#[trigger] s[k])
}

proof fn lemma_all_well_formed_cons(a: Ast, s: Seq<Ast>)
    requires
        well_formed(a),
        all_well_formed(s),
    ensures
        all_well_formed(seq![a] + s),
{
    let t = seq![a] + s;
    assert forall|k: int| 0 <= k < t.len() implies well_formed(#[trigger] t[k]) by {
        if k > 0 {
            assert(t[k] == s[k - 1]);
        }
    }
}

proof fn lemma_primary_result(ts: Seq<Lexeme>, i: int)
    ensures
        parse_primary(ts, i) is Ok ==> well_formed((parse_primary(ts, i)->Ok_0).0) && i < (
        parse_primary(ts, i)->Ok_0).1 <= ts.len(),
    decreases ts.len() - i, 0int,
{
    if 0 <= i < ts.len() {
        lemma_additive_result(ts, i + 1);
        if i + 1 < ts.len() {
            lemma_additive_result(ts, i + 2);
        }
        if i + 3 <= ts.len() {
            lemma_additive_result(ts, i + 3);
            lemma_params_result(ts, i + 3);
            if let Ok((_, j)) = parse_params(ts, i + 3) {
                if i < j && j + 2 <= ts.len() {
                    lemma_block_result(ts, j + 2);
                }
            }
        }
        assert(seq!['='].len() > 0);
    }
}

proof fn lemma_params_result(ts: Seq<Lexeme>, i: int)
    requires
        0 <= i <= ts.len(),
    ensures
        parse_params(ts, i) is Ok ==> all_well_formed((parse_params(ts, i)->Ok_0).0) && i <= (
        parse_params(ts, i)->Ok_0).1 <= ts.len(),
    decreases ts.len() - i, 3int,
{
    if 0 <= i < ts.len() && ts[i].kind == TokeType::Identifier {
        lemma_primary_result(ts, i);
        if let Ok((p, j)) = parse_primary(ts, i) {
            if i < j && j < ts.len() {
                let k = if ts[j].kind == TokeType::Comma {
                    j + 1
                } else {
                    j
                };
                lemma_params_result(ts, k);
                if let Ok((ps, _)) = parse_params(ts, k) {
                    lemma_all_well_formed_cons(p, ps);
                }
            }
        }
    }
}

proof fn lemma_block_result(ts: Seq<Lexeme>, i: int)
    requires
        0 <= i <= ts.len(),
    ensures
        parse_block(ts, i) is Ok ==> all_well_formed((parse_block(ts, i)->Ok_0).0) && i <= (
        parse_block(ts, i)->Ok_0).1 <= ts.len(),
    decreases ts.len() - i, 3int,
{
    if 0 <= i < ts.len() && ts[i].kind != TokeType::CloseBrace {
        lemma_additive_result(ts, i);
        if let Ok((s, j)) = parse_additive(ts, i) {
            if i < j && j <= ts.len() {
                lemma_block_result(ts, j);
                if let Ok((ss, _)) = parse_block(ts, j) {
                    lemma_all_well_formed_cons(s, ss);
                }
            }
        }
    }
}

proof fn lemma_multiplicative_result(ts: Seq<Lexeme>, i: int)
    ensures
        parse_multiplicative(ts, i) is Ok ==> well_formed((parse_multiplicative(ts, i)->Ok_0).0)
            && i < (parse_multiplicative(ts, i)->Ok_0).1 <= ts.len(),
    decreases ts.len() - i, 1int,
{
    lemma_primary_result(ts, i);
    if let Ok((left, j)) = parse_primary(ts, i) {
        if i < j && j <= ts.len() {
            lemma_multiplicative_rest_result(ts, j, left);
        }
    }
}

proof fn lemma_multiplicative_rest_result(ts: Seq<Lexeme>, i: int, left: Ast)
    requires
        well_formed(left),
        0 <= i <= ts.len(),
    ensures
        multiplicative_rest(ts, i, left) is Ok ==> well_formed(
            (multiplicative_rest(ts, i, left)->Ok_0).0,
        ) && i <= (multiplicative_rest(ts, i, left)->Ok_0).1 <= ts.len(),
    decreases ts.len() - i, 1int,
{
    if 0 <= i < ts.len() && is_multiplicative_op(ts[i]) {
        lemma_primary_result(ts, i + 1);
        if let Ok((right, j)) = parse_primary(ts, i + 1) {
            if i < j && j <= ts.len() {
                assert(ts[i].text.len() > 0) by {
                    assert(seq!['*'].len() == 1 && seq!['/'].len() == 1 && seq!['%'].len() == 1);
                }
                lemma_multiplicative_rest_result(
                    ts,
                    j,
                    Ast::BinaryExpr {
                        left: Box::new(left),
                        right: Box::new(right),
                        operator: ts[i].text,
                    },
                );
            }
        }
    }
}

proof fn lemma_additive_result(ts: Seq<Lexeme>, i: int)
    ensures
        parse_additive(ts, i) is Ok ==> well_formed((parse_additive(ts, i)->Ok_0).0) && i < (
        parse_additive(ts, i)->Ok_0).1 <= ts.len(),
    decreases ts.len() - i, 2int,
{
    lemma_multiplicative_result(ts, i);
    if let Ok((left, j)) = parse_multiplicative(ts, i) {
        if i < j && j <= ts.len() {
            lemma_additive_rest_result(ts, j, left);
        }
    }
}

proof fn lemma_additive_rest_result(ts: Seq<Lexeme>, i: int, left: Ast)
    requires
        well_formed(left),
        0 <= i <= ts.len(),
    ensures
        additive_rest(ts, i, left) is Ok ==> well_formed((additive_rest(ts, i, left)->Ok_0).0)
            && i <= (additive_rest(ts, i, left)->Ok_0).1 <= ts.len(),
    decreases ts.len() - i, 2int,
{
    if 0 <= i < ts.len() && is_additive_op(ts[i]) {
        lemma_multiplicative_result(ts, i + 1);
        if let Ok((right, j)) = parse_multiplicative(ts, i + 1) {
            if i < j && j <= ts.len() {
                assert(ts[i].text.len() > 0) by {
                    assert(seq!['+'].len() == 1 && seq!['-'].len() == 1);
                }
                lemma_additive_rest_result(
                    ts,
                    j,
                    Ast::BinaryExpr {
                        left: Box::new(left),
                        right: Box::new(right),
                        operator: ts[i].text,
                    },
                );
            }
        }
    }
}

} // verus!
