//! Whitespace-insensitivity of the tokenizer: the texts of its tokens,
//! spaced out, tokenize to the same tokens.
use vstd::prelude::*;
use crate::chars::{is_digit, white_space};
use crate::lexer::{
    digits_end, is_keyword, lemma_digits_end, lemma_word_end, lex_spec, punct_kind,
    starts_word, step, word_end, continues_word,
};
use crate::types::{Lexeme, TokeType};

verus! {

/// Whether tokens of kind `k` carry their source text unchanged (string
/// literals carry decoded text and comments their body only).
pub open spec fn keeps_text(k: TokeType) -> bool {
    k != TokeType::String && k != TokeType::Comment
}

/// The texts of the tokens, each followed by one space.
pub open spec fn spaced_text(ts: Seq<Lexeme>) -> Seq<char>
    decreases ts.len(),
{
    if ts.len() == 0 {
        Seq::empty()
    } else {
        ts[0].text + seq![' '] + spaced_text(ts.subrange(1, ts.len() as int))
    }
}

/// Whether a word token may start with `c`: no earlier rule of the
/// tokenizer claims it.
pub open spec fn begins_word(c: char) -> bool {
    starts_word(c) && punct_kind(c) is None && c != '"' && c != '/' && !is_digit(c) && c != '.'
        && !white_space(c)
}

/// Whether `x` is a token whose text the tokenizer reads back as `x` alone.
pub open spec fn plain(x: Lexeme) -> bool {
    let w = x.text;
    if w.len() == 1 && punct_kind(w[0]) is Some {
        x.kind == punct_kind(w[0])->0
    } else if w == seq!['/'] || w == seq!['.', '.'] {
        x.kind == TokeType::Operator
    } else if x.kind == TokeType::Int {
        w.len() >= 1 && digits_end(w, 0) == w.len()
    } else if x.kind == TokeType::Float {
        let j = digits_end(w, 0);
        1 <= j && j + 1 < w.len() && w[j] == '.' && digits_end(w, j + 1) == w.len()
    } else if x.kind == TokeType::Identifier || x.kind == TokeType::Keyword {
        w.len() >= 1 && begins_word(w[0]) && word_end(w, 1) == w.len() && x.kind == (if is_keyword(
            w,
        ) {
            TokeType::Keyword
        } else {
            TokeType::Identifier
        })
    } else {
        false
    }
}

/// Re-tokenizing the texts of the tokens of `s`, each followed by a space,
/// gives back the same tokens, kinds and texts, whenever `s` tokenizes and
/// none of its tokens is a string literal or a comment.
pub proof fn lemma_retokenize(s: Seq<char>)
    requires
        lex_spec(s) is Ok,
        forall|i: int|
            0 <= i < lex_spec(s)->Ok_0.len() ==> keeps_text(#[trigger] lex_spec(s)->Ok_0[i].kind),
    ensures
        lex_spec(spaced_text(lex_spec(s)->Ok_0)) == lex_spec(s),
{
    lemma_tokens_plain(s);
    lemma_relex_all(lex_spec(s)->Ok_0);
}

proof fn lemma_digits_end_prefix(w: Seq<char>, t: Seq<char>, k: int)
    requires
        0 <= k <= w.len() <= t.len(),
        t.subrange(0, w.len() as int) == w,
        w.len() < t.len() ==> !is_digit(t[w.len() as int]),
    ensures
        digits_end(t, k) == digits_end(w, k),
    decreases w.len() - k,
{
    if k < w.len() {
        assert(t[k] == w[k]);
        lemma_digits_end_prefix(w, t, k + 1);
    }
}

proof fn lemma_word_end_prefix(w: Seq<char>, t: Seq<char>, k: int)
    requires
        0 <= k <= w.len() <= t.len(),
        t.subrange(0, w.len() as int) == w,
        w.len() < t.len() ==> !continues_word(t[w.len() as int]),
    ensures
        word_end(t, k) == word_end(w, k),
    decreases w.len() - k,
{
    if k < w.len() {
        assert(t[k] == w[k]);
        lemma_word_end_prefix(w, t, k + 1);
    }
}

/// A token of kept text that a step makes is plain, and its text is what
/// the step read.
proof fn lemma_step_plain(t: Seq<char>)
    requires
        t.len() > 0,
        step(t) is Ok,
        (step(t)->Ok_0).0 is Some,
        keeps_text((step(t)->Ok_0).0->0.kind),
    ensures
        plain((step(t)->Ok_0).0->0),
        (step(t)->Ok_0).0->0.text == t.subrange(0, (step(t)->Ok_0).1),
{
    let c = t[0];
    lemma_digits_end(t, 1);
    lemma_word_end(t, 1);
    if punct_kind(c) is Some {
        assert(t.subrange(0, 1) =~= seq![c]);
    } else if c == '"' {
    } else if c == '/' && t.len() > 1 && (t[1] == '/' || t[1] == '*') {
    } else if c == '/' {
        assert(t.subrange(0, 1) =~= seq!['/']);
    } else if is_digit(c) {
        let j = digits_end(t, 1);
        assert(digits_end(t, 0) == j);
        if j + 1 < t.len() && t[j] == '.' && is_digit(t[j + 1]) {
            let e = digits_end(t, j + 2);
            lemma_digits_end(t, j + 2);
            let w = t.subrange(0, e);
            lemma_digits_end_prefix(w, t, 0);
            lemma_digits_end_prefix(w, t, j + 1);
            assert(digits_end(t, j + 1) == e);
            assert(w[j] == t[j]);
            assert(w.len() != 1 && w != seq!['/'] && w != seq!['.', '.']) by {
                assert(w[0] == c);
                assert(seq!['/'][0] == '/');
                assert(seq!['.', '.'][0] == '.');
            }
        } else {
            let w = t.subrange(0, j);
            lemma_digits_end_prefix(w, t, 0);
            if w.len() == 1 {
                assert(w[0] == c);
            }
            assert(w != seq!['/'] && w != seq!['.', '.']) by {
                assert(w[0] == c);
                assert(seq!['/'][0] == '/');
                assert(seq!['.', '.'][0] == '.');
            }
        }
    } else if c == '.' && t.len() > 1 && t[1] == '.' {
        assert(t.subrange(0, 2) =~= seq!['.', '.']);
    } else if white_space(c) {
    } else if starts_word(c) {
        let e = word_end(t, 1);
        let w = t.subrange(0, e);
        lemma_word_end_prefix(w, t, 1);
        assert(w[0] == c);
        assert(w != seq!['/'] && w != seq!['.', '.']) by {
            assert(seq!['/'][0] == '/');
            assert(seq!['.', '.'][0] == '.');
        }
    }
}

/// The tokens of kept text that `s` tokenizes to are plain.
proof fn lemma_tokens_plain(s: Seq<char>)
    requires
        lex_spec(s) is Ok,
        forall|i: int|
            0 <= i < lex_spec(s)->Ok_0.len() ==> keeps_text(#[trigger] lex_spec(s)->Ok_0[i].kind),
    ensures
        forall|i: int| 0 <= i < lex_spec(s)->Ok_0.len() ==> plain(#[trigger] lex_spec(s)->Ok_0[i]),
    decreases s.len(),
{
    if s.len() > 0 {
        crate::lexer::lemma_step_advances(s);
        let (tok, n) = step(s)->Ok_0;
        let rest = s.subrange(n, s.len() as int);
        let ts = lex_spec(s)->Ok_0;
        match tok {
            Some(x) => {
                let rs = lex_spec(rest)->Ok_0;
                assert(ts == seq![x] + rs);
                assert(keeps_text(ts[0].kind));
                lemma_step_plain(s);
                assert forall|i: int| 0 <= i < rs.len() implies keeps_text(#[trigger] rs[i].kind) by {
                    assert(ts[i + 1] == rs[i]);
                }
                lemma_tokens_plain(rest);
                assert forall|i: int| 0 <= i < ts.len() implies plain(#[trigger] ts[i]) by {
                    if i > 0 {
                        assert(ts[i] == rs[i - 1]);
                    }
                }
            },
            None => {
                lemma_tokens_plain(rest);
            },
        }
    }
}

/// A plain token followed by a space and anything is read back as itself.
proof fn lemma_step_relex(x: Lexeme, r: Seq<char>)
    requires
        plain(x),
    ensures
        step(x.text + seq![' '] + r) == Ok::<(Option<Lexeme>, int), crate::lexer::LexFailure>(
            (Some(x), x.text.len() as int),
        ),
{
    let w = x.text;
    let t = w + seq![' '] + r;
    let n = w.len() as int;
    assert(t.subrange(0, n) =~= w);
    assert(t[n] == ' ');
    assert(t[0] == w[0]);
    if w.len() == 1 && punct_kind(w[0]) is Some {
        assert(seq![t[0]] =~= w);
    } else if w == seq!['/'] {
        assert(t[1] == ' ');
    } else if w == seq!['.', '.'] {
        assert(t[1] == '.');
    } else if x.kind == TokeType::Int {
        lemma_digits_end_prefix(w, t, 0);
        lemma_digits_end_prefix(w, t, 1);
        assert(is_digit(w[0]));
        assert(t[0] != '.' && t[0] != '/' && t[0] != '"' && punct_kind(t[0]) is None);
    } else if x.kind == TokeType::Float {
        let j = digits_end(w, 0);
        lemma_digits_end_prefix(w, t, 0);
        lemma_digits_end_prefix(w, t, 1);
        lemma_digits_end_prefix(w, t, j + 1);
        lemma_digits_end_prefix(w, t, j + 2);
        assert(is_digit(w[0]));
        assert(is_digit(w[j + 1]));
        assert(t[j] == w[j] && t[j + 1] == w[j + 1]);
        assert(t[0] != '.' && t[0] != '/' && t[0] != '"' && punct_kind(t[0]) is None);
    } else {
        lemma_word_end_prefix(w, t, 1);
        assert(!continues_word(' '));
    }
}

/// Plain tokens, spaced out, tokenize to themselves.
proof fn lemma_relex_all(ts: Seq<Lexeme>)
    requires
        forall|i: int| 0 <= i < ts.len() ==> plain(#[trigger] ts[i]),
    ensures
        lex_spec(spaced_text(ts)) == Ok::<Seq<Lexeme>, crate::lexer::LexFailure>(ts),
    decreases ts.len(),
{
    if ts.len() > 0 {
        let x = ts[0];
        let rest = ts.subrange(1, ts.len() as int);
        assert forall|i: int| 0 <= i < rest.len() implies plain(#[trigger] rest[i]) by {
            assert(rest[i] == ts[i + 1]);
        }
        lemma_relex_all(rest);
        let tail = spaced_text(rest);
        let u = spaced_text(ts);
        let n = x.text.len() as int;
        assert(u == x.text + seq![' '] + tail);
        assert(plain(ts[0]));
        lemma_step_relex(x, tail);
        assert(n > 0);
        let v = u.subrange(n, u.len() as int);
        assert(v =~= seq![' '] + tail);
        assert(v[0] == ' ');
        assert(v.subrange(1, v.len() as int) =~= tail);
        assert(lex_spec(v) == lex_spec(tail));
        assert(seq![x] + rest =~= ts);
    } else {
        assert(spaced_text(ts) =~= Seq::<char>::empty());
        assert(ts =~= Seq::<Lexeme>::empty());
    }
}

} // verus!
