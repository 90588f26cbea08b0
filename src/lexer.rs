//! The tokenizer: source text to a sequence of tokens.
use vstd::prelude::*;
use crate::chars::{
    chars_of, is_alphabetic, is_alphanumeric, is_digit, is_space, letter, letter_or_digit,
    string_of, white_space,
};
use crate::types::{Lexeme, TokeType, Token, lexemes};

verus! {

/// A failure of the tokenizer.
#[derive(Debug)]
pub enum LexError {
    UnterminatedString,
    UnterminatedBlockComment,
    /// A character that starts no token, with the input from it on (at most
    /// `CONTEXT_LEN` characters).
    UnexpectedCharacter { ch: char, context: String },
}

/// The mathematical value of a `LexError`.
pub enum LexFailure {
    UnterminatedString,
    UnterminatedBlockComment,
    UnexpectedCharacter { ch: char, context: Seq<char> },
}

impl View for LexError {
    type V = LexFailure;

    open spec fn view(&self) -> LexFailure {
        match self {
            LexError::UnterminatedString => LexFailure::UnterminatedString,
            LexError::UnterminatedBlockComment => LexFailure::UnterminatedBlockComment,
            LexError::UnexpectedCharacter { ch, context } => LexFailure::UnexpectedCharacter {
                ch: *ch,
                context: context@,
            },
        }
    }
}

/// How many characters of input an `UnexpectedCharacter` error reports.
pub const CONTEXT_LEN: usize = 20;

/// The kind of a token of one punctuation or operator character.
pub open spec fn punct_kind(c: char) -> Option<TokeType> {
    if c == '(' {
        Some(TokeType::OpenParen)
    } else if c == ')' {
        Some(TokeType::CloseParen)
    } else if c == '[' {
        Some(TokeType::OpenBracket)
    } else if c == ']' {
        Some(TokeType::CloseBracket)
    } else if c == '{' {
        Some(TokeType::OpenBrace)
    } else if c == '}' {
        Some(TokeType::CloseBrace)
    } else if c == ',' {
        Some(TokeType::Comma)
    } else if c == '=' {
        Some(TokeType::Assignment)
    } else if c == '-' || c == '*' || c == '+' || c == '%' {
        Some(TokeType::Operator)
    } else {
        None
    }
}

/// The character that `\c` stands for inside a string literal.
pub open spec fn unescape(c: char) -> char {
    if c == 'n' {
        '\n'
    } else if c == 't' {
        '\t'
    } else if c == 'r' {
        '\r'
    } else {
        c
    }
}

/// Whether a word may start with `c`.
pub open spec fn starts_word(c: char) -> bool {
    c == '_' || letter(c)
}

/// Whether a word may go on with `c`.
pub open spec fn continues_word(c: char) -> bool {
    c == '_' || letter_or_digit(c)
}

/// The reserved words.
pub open spec fn is_keyword(w: Seq<char>) -> bool {
    w == seq!['c', 'o', 'n', 's', 't'] || w == seq!['l', 'e', 't'] || w == seq!['f', 'n']
}

/// The end of the run of digits in `t` from `k` on.
pub open spec fn digits_end(t: Seq<char>, k: int) -> int
    decreases t.len() - k,
{
    if 0 <= k < t.len() && is_digit(t[k]) {
        digits_end(t, k + 1)
    } else {
        k
    }
}

/// The end of the run of word characters in `t` from `k` on.
pub open spec fn word_end(t: Seq<char>, k: int) -> int
    decreases t.len() - k,
{
    if 0 <= k < t.len() && continues_word(t[k]) {
        word_end(t, k + 1)
    } else {
        k
    }
}

/// The position of the first line break in `t` from `k` on, or the length.
pub open spec fn line_end(t: Seq<char>, k: int) -> int
    decreases t.len() - k,
{
    if 0 <= k < t.len() && t[k] != '\n' {
        line_end(t, k + 1)
    } else {
        k
    }
}

/// The position of the first `*/` in `t` from `k` on.
pub open spec fn block_end(t: Seq<char>, k: int) -> Option<int>
    decreases t.len() - k,
{
    if k < 0 || k + 1 >= t.len() {
        None
    } else if t[k] == '*' && t[k + 1] == '/' {
        Some(k)
    } else {
        block_end(t, k + 1)
    }
}

/// The rest of a string literal read from `k` of `t` on, `escaped` telling
/// whether the character before was an unconsumed backslash: the decoded
/// characters and the position just after the closing quote; `None` when
/// the input ends first.
pub open spec fn string_body(t: Seq<char>, k: int, escaped: bool) -> Option<(Seq<char>, int)>
    decreases t.len() - k,
{
    if k < 0 || k >= t.len() {
        None
    } else if escaped {
        prefix_body(seq![unescape(t[k])], string_body(t, k + 1, false))
    } else if t[k] == '\\' {
        string_body(t, k + 1, true)
    } else if t[k] == '"' {
        Some((Seq::empty(), k + 1))
    } else {
        prefix_body(seq![t[k]], string_body(t, k + 1, false))
    }
}

/// `o` with `p` put in front of its characters.
pub open spec fn prefix_body(p: Seq<char>, o: Option<(Seq<char>, int)>) -> Option<(Seq<char>, int)> {
    match o {
        Some((b, e)) => Some((p + b, e)),
        None => None,
    }
}

/// The first token of the non-empty input `t`, if it makes one (whitespace
/// makes none), and the number of characters it takes.
pub open spec fn step(t: Seq<char>) -> Result<(Option<Lexeme>, int), LexFailure> {
    let c = t[0];
    if punct_kind(c) is Some {
        Ok((Some(Lexeme { kind: punct_kind(c)->0, text: seq![c] }), 1))
    } else if c == '"' {
        match string_body(t, 1, false) {
            Some((b, e)) => Ok((Some(Lexeme { kind: TokeType::String, text: b }), e)),
            None => Err(LexFailure::UnterminatedString),
        }
    } else if c == '/' && t.len() > 1 && t[1] == '/' {
        let e = line_end(t, 2);
        Ok((Some(Lexeme { kind: TokeType::Comment, text: t.subrange(2, e) }), e))
    } else if c == '/' && t.len() > 1 && t[1] == '*' {
        match block_end(t, 2) {
            Some(e) => Ok((Some(Lexeme { kind: TokeType::Comment, text: t.subrange(2, e) }), e + 2)),
            None => Err(LexFailure::UnterminatedBlockComment),
        }
    } else if c == '/' {
        Ok((Some(Lexeme { kind: TokeType::Operator, text: seq!['/'] }), 1))
    } else if is_digit(c) {
        let j = digits_end(t, 1);
        if j + 1 < t.len() && t[j] == '.' && is_digit(t[j + 1]) {
            let e = digits_end(t, j + 2);
            Ok((Some(Lexeme { kind: TokeType::Float, text: t.subrange(0, e) }), e))
        } else {
            Ok((Some(Lexeme { kind: TokeType::Int, text: t.subrange(0, j) }), j))
        }
    } else if c == '.' && t.len() > 1 && t[1] == '.' {
        Ok((Some(Lexeme { kind: TokeType::Operator, text: seq!['.', '.'] }), 2))
    } else if white_space(c) {
        Ok((None, 1))
    } else if starts_word(c) {
        let e = word_end(t, 1);
        let w = t.subrange(0, e);
        Ok((
            Some(Lexeme { kind: if is_keyword(w) { TokeType::Keyword } else { TokeType::Identifier }, text: w }),
            e,
        ))
    } else {
        Err(
            LexFailure::UnexpectedCharacter {
                ch: c,
                context: t.subrange(0, if t.len() < CONTEXT_LEN { t.len() as int } else { CONTEXT_LEN as int }),
            },
        )
    }
}

/// `r` with the tokens `p` put in front.
pub open spec fn prepend(p: Seq<Lexeme>, r: Result<Seq<Lexeme>, LexFailure>) -> Result<Seq<Lexeme>, LexFailure> {
    match r {
        Ok(ts) => Ok(p + ts),
        Err(e) => Err(e),
    }
}

/// The token sequence of `t`, or the first failure.
pub open spec fn lex_spec(t: Seq<char>) -> Result<Seq<Lexeme>, LexFailure>
    decreases t.len(),
{
    if t.len() == 0 {
        Ok(Seq::empty())
    } else {
        match step(t) {
            Err(e) => Err(e),
            Ok((tok, n)) => {
                proof {
                    lemma_step_advances(t);
                }
                let rest = lex_spec(t.subrange(n, t.len() as int));
                match tok {
                    Some(x) => prepend(seq![x], rest),
                    None => rest,
                }
            },
        }
    }
}

/// `digits_end` ends a run of digits within `t`.
pub proof fn lemma_digits_end(t: Seq<char>, k: int)
    requires
        0 <= k <= t.len(),
    ensures
        k <= digits_end(t, k) <= t.len(),
        forall|m: int| k <= m < digits_end(t, k) ==> is_digit(t[m]),
        digits_end(t, k) < t.len() ==> !is_digit(t[digits_end(t, k)]),
    decreases t.len() - k,
{
    if k < t.len() && is_digit(t[k]) {
        lemma_digits_end(t, k + 1);
    }
}

/// `word_end` ends a run of word characters within `t`.
pub proof fn lemma_word_end(t: Seq<char>, k: int)
    requires
        0 <= k <= t.len(),
    ensures
        k <= word_end(t, k) <= t.len(),
        forall|m: int| k <= m < word_end(t, k) ==> continues_word(t[m]),
        word_end(t, k) < t.len() ==> !continues_word(t[word_end(t, k)]),
    decreases t.len() - k,
{
    if k < t.len() && continues_word(t[k]) {
        lemma_word_end(t, k + 1);
    }
}

/// `line_end` stays within `t`.
pub proof fn lemma_line_end(t: Seq<char>, k: int)
    requires
        0 <= k <= t.len(),
    ensures
        k <= line_end(t, k) <= t.len(),
    decreases t.len() - k,
{
    if k < t.len() && t[k] != '\n' {
        lemma_line_end(t, k + 1);
    }
}

/// A `*/` found by `block_end` lies within `t`.
pub proof fn lemma_block_end(t: Seq<char>, k: int)
    requires
        0 <= k,
    ensures
        block_end(t, k) is Some ==> k <= block_end(t, k)->0 && block_end(t, k)->0 + 2 <= t.len(),
    decreases t.len() - k,
{
    if k + 1 < t.len() && !(t[k] == '*' && t[k + 1] == '/') {
        lemma_block_end(t, k + 1);
    }
}

/// A string literal that closes ends within `t`, after `k`.
pub proof fn lemma_string_body(t: Seq<char>, k: int, escaped: bool)
    requires
        0 <= k,
    ensures
        string_body(t, k, escaped) is Some ==> k < (string_body(t, k, escaped)->0).1 <= t.len(),
    decreases t.len() - k,
{
    if 0 <= k < t.len() {
        if escaped || t[k] != '"' {
            lemma_string_body(t, k + 1, !escaped && t[k] == '\\');
        }
    }
}

/// A step takes at least one character and no more than there are.
pub proof fn lemma_step_advances(t: Seq<char>)
    requires
        t.len() > 0,
    ensures
        step(t) is Ok ==> 0 < (step(t)->Ok_0).1 <= t.len(),
{
    lemma_digits_end(t, 1);
    let j = digits_end(t, 1);
    if j + 1 < t.len() {
        lemma_digits_end(t, j + 2);
    }
    lemma_word_end(t, 1);
    if t.len() > 1 {
        lemma_line_end(t, 2);
    }
    lemma_block_end(t, 2);
    lemma_string_body(t, 1, false);
}

/// The outcome of `lex` as mathematical values.
pub open spec fn lex_outcome(r: Result<Vec<Token>, LexError>) -> Result<Seq<Lexeme>, LexFailure> {
    match r {
        Ok(ts) => Ok(lexemes(ts@)),
        Err(e) => Err(e@),
    }
}

/// The outcome of `scan_token` as mathematical values, positions counted
/// from `i`.
pub open spec fn scan_outcome(r: Result<(Option<Token>, usize), LexError>, i: int) -> Result<(Option<Lexeme>, int), LexFailure> {
    match r {
        Ok((Some(t), j)) => Ok((Some(t@), j - i)),
        Ok((None, j)) => Ok((None, j - i)),
        Err(e) => Err(e@),
    }
}

/// The string of `cs[a..b]`.
fn string_between(cs: &Vec<char>, a: usize, b: usize) -> (r: String)
    requires
        a <= b <= cs.len(),
    ensures
        r@ == cs@.subrange(a as int, b as int),
{
    let mut v: Vec<char> = Vec::new();
    let mut k: usize = a;
    while k < b
        invariant
            a <= k <= b <= cs.len(),
            v@ == cs@.subrange(a as int, k as int),
        decreases b - k,
    {
        v.push(cs[k]);
        k = k + 1;
        assert(v@ =~= cs@.subrange(a as int, k as int));
    }
    string_of(&v)
}

/// Whether `cs[a..b]` is a reserved word.
fn keyword_between(cs: &Vec<char>, a: usize, b: usize) -> (r: bool)
    requires
        a <= b <= cs.len(),
    ensures
        r == is_keyword(cs@.subrange(a as int, b as int)),
{
    let w = Ghost(cs@.subrange(a as int, b as int));
    let n = b - a;
    if n == 5 && cs[a] == 'c' && cs[a + 1] == 'o' && cs[a + 2] == 'n' && cs[a + 3] == 's' && cs[a + 4] == 't' {
        assert(w@ =~= seq!['c', 'o', 'n', 's', 't']);
        true
    } else if n == 3 && cs[a] == 'l' && cs[a + 1] == 'e' && cs[a + 2] == 't' {
        assert(w@ =~= seq!['l', 'e', 't']);
        true
    } else if n == 2 && cs[a] == 'f' && cs[a + 1] == 'n' {
        assert(w@ =~= seq!['f', 'n']);
        true
    } else {
        proof {
            let k1 = seq!['c', 'o', 'n', 's', 't'];
            let k2 = seq!['l', 'e', 't'];
            let k3 = seq!['f', 'n'];
            assert(k1.len() == 5 && k1[0] == 'c' && k1[1] == 'o' && k1[2] == 'n' && k1[3] == 's'
                && k1[4] == 't');
            assert(k2.len() == 3 && k2[0] == 'l' && k2[1] == 'e' && k2[2] == 't');
            assert(k3.len() == 2 && k3[0] == 'f' && k3[1] == 'n');
            if w@ == k1 || w@ == k2 || w@ == k3 {
                assert(w@[0] == cs@[a as int] && w@[1] == cs@[a + 1]);
                if w@.len() > 2 {
                    assert(w@[2] == cs@[a + 2]);
                }
                if w@.len() > 4 {
                    assert(w@[3] == cs@[a + 3] && w@[4] == cs@[a + 4]);
                }
            }
        }
        false
    }
}

/// The punctuation or operator kind of `c`, if it is one.
fn punct_kind_of(c: char) -> (r: Option<TokeType>)
    ensures
        r == punct_kind(c),
{
    match c {
        '(' => Some(TokeType::OpenParen),
        ')' => Some(TokeType::CloseParen),
        '[' => Some(TokeType::OpenBracket),
        ']' => Some(TokeType::CloseBracket),
        '{' => Some(TokeType::OpenBrace),
        '}' => Some(TokeType::CloseBrace),
        ',' => Some(TokeType::Comma),
        '=' => Some(TokeType::Assignment),
        '-' | '*' | '+' | '%' => Some(TokeType::Operator),
        _ => None,
    }
}

/// Reads the string literal whose opening quote is at `i`: its decoded text
/// and the position after its closing quote.
fn scan_string(cs: &Vec<char>, i: usize) -> (r: Result<(String, usize), LexError>)
    requires
        i < cs.len(),
    ensures
        ({
            let t = cs@.subrange(i as int, cs.len() as int);
            match string_body(t, 1, false) {
                Some((b, e)) => r is Ok && (r->Ok_0).0@ == b && (r->Ok_0).1 == i + e,
                None => r is Err && r->Err_0@ == LexFailure::UnterminatedString,
            }
        }),
{
    let n = cs.len();
    let t = Ghost(cs@.subrange(i as int, n as int));
    let mut body: Vec<char> = Vec::new();
    let mut escaped = false;
    let mut k: usize = i + 1;
    loop
        invariant
            i + 1 <= k <= n,
            n == cs.len(),
            t@ == cs@.subrange(i as int, n as int),
            string_body(t@, 1, false) == prefix_body(body@, string_body(t@, k - i, escaped)),
        decreases n - k,
    {
        if k >= n {
            return Err(LexError::UnterminatedString);
        }
        let c = cs[k];
        assert(t@[k - i] == c);
        if escaped {
            let d = if c == 'n' {
                '\n'
            } else if c == 't' {
                '\t'
            } else if c == 'r' {
                '\r'
            } else {
                c
            };
            proof {
                lemma_prefix_push(body@, d, string_body(t@, k - i + 1, false));
            }
            body.push(d);
            escaped = false;
        } else if c == '\\' {
            escaped = true;
        } else if c == '"' {
            assert(body@ + Seq::<char>::empty() =~= body@);
            return Ok((string_of(&body), k + 1));
        } else {
            proof {
                lemma_prefix_push(body@, c, string_body(t@, k - i + 1, false));
            }
            body.push(c);
        }
        k = k + 1;
    }
}

proof fn lemma_prefix_push(p: Seq<char>, c: char, o: Option<(Seq<char>, int)>)
    ensures
        prefix_body(p, prefix_body(seq![c], o)) == prefix_body(p.push(c), o),
{
    if let Some((b, e)) = o {
        assert(p + (seq![c] + b) =~= p.push(c) + b);
    }
}

/// The end of the run of digits from `k` on.
fn skip_digits(cs: &Vec<char>, i: usize, k: usize) -> (r: usize)
    requires
        i <= k <= cs.len(),
    ensures
        r == i + digits_end(cs@.subrange(i as int, cs.len() as int), k - i),
{
    let t = Ghost(cs@.subrange(i as int, cs.len() as int));
    let mut j = k;
    while j < cs.len() && '0' <= cs[j] && cs[j] <= '9'
        invariant
            i <= k <= j <= cs.len(),
            t@ == cs@.subrange(i as int, cs.len() as int),
            digits_end(t@, k - i) == digits_end(t@, j - i),
        decreases cs.len() - j,
    {
        j = j + 1;
    }
    j
}

/// The end of the run of word characters from `k` on.
fn skip_word(cs: &Vec<char>, i: usize, k: usize) -> (r: usize)
    requires
        i <= k <= cs.len(),
    ensures
        r == i + word_end(cs@.subrange(i as int, cs.len() as int), k - i),
{
    let t = Ghost(cs@.subrange(i as int, cs.len() as int));
    let mut j = k;
    while j < cs.len() && (cs[j] == '_' || is_alphanumeric(cs[j]))
        invariant
            i <= k <= j <= cs.len(),
            t@ == cs@.subrange(i as int, cs.len() as int),
            word_end(t@, k - i) == word_end(t@, j - i),
        decreases cs.len() - j,
    {
        j = j + 1;
    }
    j
}

/// The first token of the input from `i` on, and the position after it.
fn scan_token(cs: &Vec<char>, i: usize) -> (r: Result<(Option<Token>, usize), LexError>)
    requires
        i < cs.len(),
    ensures
        scan_outcome(r, i as int) == step(cs@.subrange(i as int, cs.len() as int)),
        r is Ok ==> i < (r->Ok_0).1 <= cs.len(),
{
    let n = cs.len();
    let t = Ghost(cs@.subrange(i as int, n as int));
    proof {
        lemma_step_advances(t@);
    }
    let c = cs[i];
    assert(t@[0] == c);
    if let Some(kind) = punct_kind_of(c) {
        let mut v: Vec<char> = Vec::new();
        v.push(c);
        assert(v@ =~= seq![c]);
        return Ok((Some(Token { typ: kind, val: string_of(&v) }), i + 1));
    }
    if c == '"' {
        return match scan_string(cs, i) {
            Ok((b, e)) => Ok((Some(Token { typ: TokeType::String, val: b }), e)),
            Err(err) => Err(err),
        };
    }
    if c == '/' && i + 1 < n && cs[i + 1] == '/' {
        assert(t@[1] == cs@[i + 1]);
        let mut k: usize = i + 2;
        while k < n && cs[k] != '\n'
            invariant
                i + 2 <= k <= n,
                n == cs.len(),
                t@ == cs@.subrange(i as int, n as int),
                line_end(t@, 2) == line_end(t@, k - i),
            decreases n - k,
        {
            k = k + 1;
        }
        let text = string_between(cs, i + 2, k);
        assert(text@ =~= t@.subrange(2, k - i));
        return Ok((Some(Token { typ: TokeType::Comment, val: text }), k));
    }
    if c == '/' && i + 1 < n && cs[i + 1] == '*' {
        assert(t@[1] == cs@[i + 1]);
        let mut k: usize = i + 2;
        while k < n - 1 && !(cs[k] == '*' && cs[k + 1] == '/')
            invariant
                i + 2 <= k <= n,
                n == cs.len(),
                t@ == cs@.subrange(i as int, n as int),
                block_end(t@, 2) == block_end(t@, k - i),
            decreases n - k,
        {
            k = k + 1;
        }
        if k >= n - 1 {
            return Err(LexError::UnterminatedBlockComment);
        }
        let text = string_between(cs, i + 2, k);
        assert(text@ =~= t@.subrange(2, k - i));
        return Ok((Some(Token { typ: TokeType::Comment, val: text }), k + 2));
    }
    if c == '/' {
        assert(!(t@.len() > 1 && t@[1] == '/') && !(t@.len() > 1 && t@[1] == '*'));
        let mut v: Vec<char> = Vec::new();
        v.push(c);
        assert(v@ =~= seq!['/']);
        return Ok((Some(Token { typ: TokeType::Operator, val: string_of(&v) }), i + 1));
    }
    if '0' <= c && c <= '9' {
        let j = skip_digits(cs, i, i + 1);
        if j < n - 1 && cs[j] == '.' && '0' <= cs[j + 1] && cs[j + 1] <= '9' {
            assert(t@[j - i] == cs@[j as int] && t@[j - i + 1] == cs@[j + 1]);
            let e = skip_digits(cs, i, j + 2);
            let text = string_between(cs, i, e);
            assert(text@ =~= t@.subrange(0, e - i));
            return Ok((Some(Token { typ: TokeType::Float, val: text }), e));
        }
        assert(!(j + 1 < n && t@[j - i] == '.' && is_digit(t@[j - i + 1])));
        let text = string_between(cs, i, j);
        assert(text@ =~= t@.subrange(0, j - i));
        return Ok((Some(Token { typ: TokeType::Int, val: text }), j));
    }
    if c == '.' && i + 1 < n && cs[i + 1] == '.' {
        assert(t@[1] == cs@[i + 1]);
        let mut v: Vec<char> = Vec::new();
        v.push('.');
        v.push('.');
        assert(v@ =~= seq!['.', '.']);
        return Ok((Some(Token { typ: TokeType::Operator, val: string_of(&v) }), i + 2));
    }
    assert(!(c == '.' && t@.len() > 1 && t@[1] == '.'));
    if is_space(c) {
        return Ok((None, i + 1));
    }
    if c == '_' || is_alphabetic(c) {
        let e = skip_word(cs, i, i + 1);
        let text = string_between(cs, i, e);
        assert(text@ =~= t@.subrange(0, e - i));
        assert(cs@.subrange(i as int, e as int) =~= t@.subrange(0, e - i));
        let kind = if keyword_between(cs, i, e) {
            TokeType::Keyword
        } else {
            TokeType::Identifier
        };
        return Ok((Some(Token { typ: kind, val: text }), e));
    }
    let end = if n - i < CONTEXT_LEN {
        n
    } else {
        i + CONTEXT_LEN
    };
    let context = string_between(cs, i, end);
    assert(context@ =~= t@.subrange(0, end - i));
    Err(LexError::UnexpectedCharacter { ch: c, context })
}

/// Tokenizes `text`: the tokens in order, comments included and whitespace
/// left out, or the first failure.
pub fn lex(text: &str) -> (r: Result<Vec<Token>, LexError>)
    ensures
        lex_outcome(r) == lex_spec(text@),
{
    let cs = chars_of(text);
    let n = cs.len();
    let mut tokens: Vec<Token> = Vec::new();
    let mut i: usize = 0;
    assert(cs@.subrange(0, n as int) =~= cs@);
    assert(lexemes(tokens@) =~= Seq::<Lexeme>::empty());
    proof {
        lemma_prepend_empty(lex_spec(cs@));
    }
    while i < n
        invariant
            i <= n,
            n == cs.len(),
            cs@ == text@,
            lex_spec(cs@) == prepend(lexemes(tokens@), lex_spec(cs@.subrange(i as int, n as int))),
        decreases n - i,
    {
        let ghost t = cs@.subrange(i as int, n as int);
        match scan_token(&cs, i) {
            Err(e) => {
                proof {
                    lemma_prepend_err(lexemes(tokens@), e@);
                }
                return Err(e);
            },
            Ok((tok, j)) => {
                assert(t.subrange(j - i, t.len() as int) =~= cs@.subrange(j as int, n as int));
                let ghost rest = lex_spec(cs@.subrange(j as int, n as int));
                match tok {
                    Some(x) => {
                        let ghost before = tokens@;
                        proof {
                            lemma_prepend_push(lexemes(before), x@, rest);
                        }
                        tokens.push(x);
                        assert(lexemes(tokens@) =~= lexemes(before).push(x@));
                    },
                    None => {},
                }
                i = j;
            },
        }
    }
    assert(lexemes(tokens@) + Seq::<Lexeme>::empty() =~= lexemes(tokens@));
    Ok(tokens)
}

proof fn lemma_prepend_empty(r: Result<Seq<Lexeme>, LexFailure>)
    ensures
        prepend(Seq::empty(), r) == r,
{
    if let Ok(ts) = r {
        assert(Seq::<Lexeme>::empty() + ts =~= ts);
    }
}

proof fn lemma_prepend_err(p: Seq<Lexeme>, e: LexFailure)
    ensures
        prepend(p, Err(e)) == Err::<Seq<Lexeme>, LexFailure>(e),
{
}

proof fn lemma_prepend_push(p: Seq<Lexeme>, x: Lexeme, r: Result<Seq<Lexeme>, LexFailure>)
    ensures
        prepend(p, prepend(seq![x], r)) == prepend(p.push(x), r),
{
    if let Ok(ts) = r {
        assert(p + (seq![x] + ts) =~= p.push(x) + ts);
    }
}

} // verus!
