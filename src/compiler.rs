//! Generation of C-like text from a syntax tree, for the node kinds that have
//! a translation.
use vstd::prelude::*;
use crate::types::{Ast, Node, lemma_nodes_model_index, lemma_nodes_model_len, nodes_model};

verus! {

/// A node that has no translation yet.
#[derive(Debug, Clone, Copy, PartialEq, Eq, Structural)]
pub enum CompileError {
    /// A `Variable` or `MemberExpr` node.
    Unsupported,
}

/// `n` spaces.
pub open spec fn spaces(n: nat) -> Seq<char>
    decreases n,
{
    if n == 0 {
        Seq::empty()
    } else {
        spaces((n - 1) as nat).push(' ')
    }
}

/// The position of the first line feed in `s`, or its length.
pub open spec fn newline_at(s: Seq<char>) -> int
    decreases s.len(),
{
    if s.len() == 0 || s[0] == '\n' {
        0
    } else {
        1 + newline_at(s.subrange(1, s.len() as int))
    }
}

/// Each line of `s`, as `str::lines` splits them (at `\n` or `\r\n`, with
/// no empty line after a final line break), behind `n` spaces and followed
/// by a line break.
pub open spec fn indent_spec(s: Seq<char>, n: nat) -> Seq<char>
    decreases s.len(),
{
    if s.len() == 0 {
        Seq::empty()
    } else {
        let e = newline_at(s);
        proof {
            lemma_newline_at(s);
        }
        if e == s.len() {
            spaces(n) + s + seq!['\n']
        } else {
            let line = s.subrange(0, e);
            let line = if line.len() > 0 && line[line.len() - 1] == '\r' {
                line.subrange(0, line.len() - 1)
            } else {
                line
            };
            spaces(n) + line + seq!['\n'] + indent_spec(s.subrange(e + 1, s.len() as int), n)
        }
    }
}

/// `newline_at` is a position within `s` before which no line feed stands.
pub proof fn lemma_newline_at(s: Seq<char>)
    ensures
        0 <= newline_at(s) <= s.len(),
        forall|k: int| 0 <= k < newline_at(s) ==> s[k] != '\n',
        newline_at(s) < s.len() ==> s[newline_at(s)] == '\n',
    decreases s.len(),
{
    if s.len() > 0 && s[0] != '\n' {
        let t = s.subrange(1, s.len() as int);
        lemma_newline_at(t);
        assert forall|k: int| 0 <= k < newline_at(s) implies s[k] != '\n' by {
            if k > 0 {
                assert(s[k] == t[k - 1]);
            }
        }
    }
}

/// The parts joined with `sep` between each two.
pub open spec fn join(parts: Seq<Seq<char>>, sep: Seq<char>) -> Seq<char>
    decreases parts.len(),
{
    if parts.len() == 0 {
        Seq::empty()
    } else if parts.len() == 1 {
        parts[0]
    } else {
        join(parts.subrange(0, parts.len() - 1), sep) + sep + parts[parts.len() - 1]
    }
}

/// The text of `a`, or `None` where it holds a node without translation.
pub open spec fn compile_spec(a: Ast) -> Option<Seq<char>>
    decreases a,
{
    match a {
        Ast::Program { body } => match compile_all(body) {
            Some(ps) => Some(join(ps, "\n"@)),
            None => None,
        },
        Ast::Function { name, params, body } => match (compile_all(params), compile_all(body)) {
            (Some(ps), Some(bs)) => Some(
                "void "@ + name + "("@ + join(ps, ", "@) + ") {\n"@ + indent_spec(
                    join(bs, ";\n"@),
                    4,
                ) + "}"@,
            ),
            _ => None,
        },
        Ast::NumericLiteral { typ, val } => Some("("@ + typ + ")"@ + val),
        Ast::BinaryExpr { left, right, operator } => match (
            compile_spec(*left),
            compile_spec(*right),
        ) {
            (Some(l), Some(r)) => Some(l + " "@ + operator + " "@ + r + ";"@),
            _ => None,
        },
        Ast::Identifier { name } => Some(name),
        Ast::TypedIdentifier { name, typ } => match compile_spec(*typ) {
            Some(t) => Some(name + ": "@ + t),
            None => None,
        },
        Ast::CallExpr { callee, args } => match (compile_spec(*callee), compile_all(args)) {
            (Some(c), Some(xs)) => Some(c + "("@ + join(xs, ", "@) + ")"@),
            _ => None,
        },
        Ast::Variable { .. } => None,
        Ast::MemberExpr => None,
    }
}

/// The texts of all of `s`, or `None` where one has no translation.
pub open spec fn compile_all(s: Seq<Ast>) -> Option<Seq<Seq<char>>>
    decreases s,
{
    if s.len() == 0 {
        Some(Seq::empty())
    } else {
        match (compile_all(s.subrange(0, s.len() - 1)), compile_spec(s[s.len() - 1])) {
            (Some(ps), Some(p)) => Some(ps.push(p)),
            _ => None,
        }
    }
}

/// Each line of `s` behind `n` spaces and followed by a line break.
pub fn indent(s: &str, n: usize) -> (r: String)
    ensures
        r@ == indent_spec(s@, n as nat),
{
    let cs = crate::chars::chars_of(s);
    let mut pad = String::new();
    let mut k: usize = 0;
    while k < n
        invariant
            k <= n,
            pad@ == spaces(k as nat),
        decreases n - k,
    {
        pad.append(" ");
        proof {
            reveal_strlit(" ");
            assert(spaces((k + 1) as nat) == spaces(k as nat).push(' '));
            assert(pad@ =~= spaces((k + 1) as nat));
        }
        k = k + 1;
    }
    let mut out = String::new();
    let mut start: usize = 0;
    let len = cs.len();
    assert(cs@.subrange(0, len as int) =~= cs@);
    while start < len
        invariant
            start <= len,
            len == cs.len(),
            cs@ == s@,
            pad@ == spaces(n as nat),
            indent_spec(s@, n as nat) == out@ + indent_spec(cs@.subrange(start as int, len as int), n as nat),
        decreases len - start,
    {
        let ghost rest = cs@.subrange(start as int, len as int);
        proof {
            lemma_newline_at(rest);
        }
        let mut e: usize = start;
        while e < len && cs[e] != '\n'
            invariant
                start <= e <= len,
                len == cs.len(),
                rest == cs@.subrange(start as int, len as int),
                forall|m: int| start <= m < e ==> cs@[m] != '\n',
            decreases len - e,
        {
            e = e + 1;
        }
        proof {
            lemma_newline_position(rest, (e - start) as int);
        }
        let mut stop = e;
        if e < len && e > start && cs[e - 1] == '\r' {
            stop = e - 1;
        }
        let mut line: Vec<char> = Vec::new();
        let mut m: usize = start;
        while m < stop
            invariant
                start <= m <= stop <= len,
                len == cs.len(),
                line@ == cs@.subrange(start as int, m as int),
            decreases stop - m,
        {
            line.push(cs[m]);
            m = m + 1;
            assert(line@ =~= cs@.subrange(start as int, m as int));
        }
        let text = crate::chars::string_of(&line);
        let ghost before = out@;
        out.append(pad.as_str());
        out.append(text.as_str());
        out.append("\n");
        proof {
            reveal_strlit("\n");
            assert("\n"@ =~= seq!['\n']);
            let line_spec = rest.subrange(0, e - start);
            if e == len {
                assert(line_spec =~= rest);
                assert(cs@.subrange(len as int, len as int) =~= Seq::<char>::empty());
                assert(out@ =~= before + (spaces(n as nat) + rest + seq!['\n']));
            } else {
                assert(rest.subrange(e - start + 1, rest.len() as int) =~= cs@.subrange(
                    e + 1,
                    len as int,
                ));
                if e > start && cs@[e - 1] == '\r' {
                    assert(line_spec.subrange(0, line_spec.len() - 1) =~= text@);
                } else {
                    assert(line_spec =~= text@);
                }
                assert(out@ =~= before + (spaces(n as nat) + text@ + seq!['\n']));
            }
        }
        if e == len {
            start = len;
        } else {
            start = e + 1;
        }
    }
    assert(out@ + Seq::<char>::empty() =~= out@);
    out
}

proof fn lemma_newline_position(s: Seq<char>, e: int)
    requires
        0 <= e <= s.len(),
        forall|m: int| 0 <= m < e ==> s[m] != '\n',
        e < s.len() ==> s[e] == '\n',
    ensures
        newline_at(s) == e,
    decreases s.len(),
{
    if s.len() > 0 && s[0] != '\n' {
        let t = s.subrange(1, s.len() as int);
        assert forall|m: int| 0 <= m < e - 1 implies t[m] != '\n' by {
            assert(t[m] == s[m + 1]);
        }
        if e - 1 < t.len() {
            assert(t[e - 1] == s[e]);
        }
        lemma_newline_position(t, e - 1);
    }
}

/// The text of `ast`: for each node kind with a translation, as
/// `compile_spec` gives it; `Unsupported` where the tree holds a `Variable`
/// or a `MemberExpr`.
pub fn compile(ast: Node) -> (r: Result<String, CompileError>)
    ensures
        match compile_spec(ast@) {
            Some(t) => r is Ok && r->Ok_0@ == t,
            None => r == Err::<String, CompileError>(CompileError::Unsupported),
        },
{
    compile_node(&ast)
}

fn compile_node(n: &Node) -> (r: Result<String, CompileError>)
    ensures
        match compile_spec(n@) {
            Some(t) => r is Ok && r->Ok_0@ == t,
            None => r == Err::<String, CompileError>(CompileError::Unsupported),
        },
    decreases n,
{
    match n {
        Node::Program { body } => compile_list(body, "\n"),
        Node::Function { name, params, body } => {
            let ps = match compile_list(params, ", ") {
                Ok(t) => t,
                Err(e) => {
                    return Err(e);
                },
            };
            let bs = match compile_list(body, ";\n") {
                Ok(t) => t,
                Err(e) => {
                    return Err(e);
                },
            };
            let inner = indent(bs.as_str(), 4);
            let mut out = String::new();
            out.append("void ");
            out.append(name.as_str());
            out.append("(");
            out.append(ps.as_str());
            out.append(") {\n");
            out.append(inner.as_str());
            out.append("}");
            proof {
                assert(Seq::<char>::empty() + "void "@ =~= "void "@);
            }
            Ok(out)
        },
        Node::NumericLiteral { typ, val } => {
            let mut out = String::new();
            out.append("(");
            out.append(typ.as_str());
            out.append(")");
            out.append(val.as_str());
            proof {
                assert(Seq::<char>::empty() + "("@ =~= "("@);
            }
            Ok(out)
        },
        Node::BinaryExpr { left, right, operator } => {
            let l = match compile_node(left) {
                Ok(t) => t,
                Err(e) => {
                    return Err(e);
                },
            };
            let r = match compile_node(right) {
                Ok(t) => t,
                Err(e) => {
                    return Err(e);
                },
            };
            let mut out = String::new();
            out.append(l.as_str());
            out.append(" ");
            out.append(operator.as_str());
            out.append(" ");
            out.append(r.as_str());
            out.append(";");
            proof {
                assert(Seq::<char>::empty() + l@ =~= l@);
            }
            Ok(out)
        },
        Node::Identifier { name } => Ok(name.clone()),
        Node::TypedIdentifier { name, typ } => {
            let t = match compile_node(typ) {
                Ok(t) => t,
                Err(e) => {
                    return Err(e);
                },
            };
            let mut out = String::new();
            out.append(name.as_str());
            out.append(": ");
            out.append(t.as_str());
            proof {
                assert(Seq::<char>::empty() + name@ =~= name@);
            }
            Ok(out)
        },
        Node::CallExpr { callee, args } => {
            let c = match compile_node(callee) {
                Ok(t) => t,
                Err(e) => {
                    return Err(e);
                },
            };
            let xs = match compile_list(args, ", ") {
                Ok(t) => t,
                Err(e) => {
                    return Err(e);
                },
            };
            let mut out = String::new();
            out.append(c.as_str());
            out.append("(");
            out.append(xs.as_str());
            out.append(")");
            proof {
                assert(Seq::<char>::empty() + c@ =~= c@);
            }
            Ok(out)
        },
        Node::Variable { .. } => Err(CompileError::Unsupported),
        Node::MemberExpr => Err(CompileError::Unsupported),
    }
}

/// The texts of the nodes of `s` joined with `sep`.
fn compile_list(s: &Vec<Node>, sep: &str) -> (r: Result<String, CompileError>)
    ensures
        match compile_all(nodes_model(s@)) {
            Some(ps) => r is Ok && r->Ok_0@ == join(ps, sep@),
            None => r == Err::<String, CompileError>(CompileError::Unsupported),
        },
    decreases s,
{
    let ghost xs = nodes_model(s@);
    proof {
        lemma_nodes_model_len(s@);
        assert(xs.subrange(0, 0) =~= Seq::<Ast>::empty());
    }
    let mut out = String::new();
    let mut k: usize = 0;
    let ghost mut ps: Seq<Seq<char>> = Seq::empty();
    while k < s.len()
        invariant
            k <= s.len(),
            xs == nodes_model(s@),
            xs.len() == s.len(),
            compile_all(xs.subrange(0, k as int)) == Some(ps),
            out@ == join(ps, sep@),
            ps.len() == k,
        decreases s.len() - k,
    {
        proof {
            lemma_nodes_model_index(s@, k as int);
            assert(xs.subrange(0, k + 1).subrange(0, k as int) =~= xs.subrange(0, k as int));
            assert(xs.subrange(0, k + 1)[k as int] == xs[k as int]);
        }
        let part = match compile_node(&s[k]) {
            Ok(t) => t,
            Err(e) => {
                proof {
                    lemma_compile_all_prefix(xs, k + 1);
                }
                return Err(e);
            },
        };
        let ghost before = out@;
        if k > 0 {
            out.append(sep);
        }
        out.append(part.as_str());
        proof {
            assert(ps.push(part@).subrange(0, ps.len() as int) =~= ps);
            if k == 0 {
                assert(out@ =~= part@);
            } else {
                assert(out@ =~= before + sep@ + part@);
            }
            ps = ps.push(part@);
        }
        k = k + 1;
    }
    proof {
        assert(xs.subrange(0, s.len() as int) =~= xs);
    }
    Ok(out)
}

proof fn lemma_compile_all_prefix(x: Seq<Ast>, k: int)
    requires
        0 <= k <= x.len(),
    ensures
        compile_all(x) is Some ==> compile_all(x.subrange(0, k)) is Some,
    decreases x.len(),
{
    if k == x.len() {
        assert(x.subrange(0, k) =~= x);
    } else {
        let init = x.subrange(0, x.len() - 1);
        lemma_compile_all_prefix(init, k);
        assert(init.subrange(0, k) =~= x.subrange(0, k));
    }
}

} // verus!
