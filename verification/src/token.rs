//! The tokenizer: a single left-to-right scan over the source text that
//! maintains one accumulation buffer and splits on spaces and
//! parentheses, except inside a double-quoted string literal.

use vstd::prelude::*;

use crate::tree::{atom_token, bare_token, quoted_token, lparen, rparen};

verus! {

/// The buffer is accumulating an open string literal: its first
/// character is the opening quote, which has not been closed yet.
pub open spec fn in_string(buf: Seq<char>) -> bool {
    buf.len() > 0 && buf[0] == '"'
}

/// The tokens a non-empty buffer flushes to; an empty buffer flushes to
/// nothing.
pub open spec fn flush(buf: Seq<char>) -> Seq<Seq<char>> {
    if buf.len() > 0 {
        seq![buf]
    } else {
        Seq::empty()
    }
}

/// One step per character: the tokens produced by scanning `s` when the
/// buffer already holds `buf`.
///
/// A space flushes the buffer; `(` and `)` flush it and then stand as
/// one-character tokens of their own; the quote that closes a string
/// literal flushes the whole literal; every other character is appended
/// to the buffer. Inside an open string literal, spaces and parentheses
/// lose their delimiting role. At the end of the input a leftover bare
/// word is flushed, but an unterminated string literal never is.
pub open spec fn lex(s: Seq<char>, buf: Seq<char>) -> Seq<Seq<char>>
    decreases s.len(),
{
    if s.len() == 0 {
        if in_string(buf) {
            Seq::empty()
        } else {
            flush(buf)
        }
    } else {
        let c = s[0];
        let rest = s.drop_first();
        if in_string(buf) {
            if c == '"' {
                seq![buf.push(c)] + lex(rest, Seq::empty())
            } else {
                lex(rest, buf.push(c))
            }
        } else if c == '(' {
            flush(buf) + seq![lparen()] + lex(rest, Seq::empty())
        } else if c == ')' {
            flush(buf) + seq![rparen()] + lex(rest, Seq::empty())
        } else if c == ' ' {
            flush(buf) + lex(rest, Seq::empty())
        } else {
            lex(rest, buf.push(c))
        }
    }
}

/// The token sequence of a whole source text: scan it with an empty
/// buffer.
pub open spec fn spec_tokenize(s: Seq<char>) -> Seq<Seq<char>> {
    lex(s, Seq::empty())
}

/// The character sequences of a vector of tokens.
pub open spec fn token_views(ts: Seq<String>) -> Seq<Seq<char>> {
    Seq::new(ts.len(), |i: int| ts[i]@)
}

/// Relies on `String::push`: appends the given character to the end of
/// the string.
#[verifier::external_body]
pub(crate) fn push_char(s: &mut String, c: char)
    ensures
        final(s)@ == old(s)@.push(c),
{
    s.push(c);
}

/// A token the scan can produce: an atom that stands for itself, or a
/// parenthesis.
pub open spec fn lexed_token(t: Seq<char>) -> bool {
    atom_token(t) || t == lparen() || t == rparen()
}

/// A buffer state the scan can be in: an open string literal with no
/// quote beyond its first character, or a partial bare word free of
/// separators.
pub open spec fn partial_buf(buf: Seq<char>) -> bool {
    if buf.len() == 0 {
        true
    } else if buf[0] == '"' {
        forall|i: int| 0 < i < buf.len() ==> buf[i] != '"'
    } else {
        forall|i: int| 0 <= i < buf.len() ==> buf[i] != ' ' && buf[i] != '(' && buf[i] != ')'
    }
}

/// Every token of a concatenation is an atom or a parenthesis when every
/// token of both parts is.
proof fn lemma_lexed_concat(a: Seq<Seq<char>>, b: Seq<Seq<char>>)
    requires
        forall|k: int| 0 <= k < a.len() ==> lexed_token(#[trigger] a[k]),
        forall|k: int| 0 <= k < b.len() ==> lexed_token(#[trigger] b[k]),
    ensures
        forall|k: int| 0 <= k < (a + b).len() ==> lexed_token(#[trigger] (a + b)[k]),
{
    assert forall|k: int| 0 <= k < (a + b).len() implies lexed_token(#[trigger] (a + b)[k]) by {
        if k < a.len() {
            assert(lexed_token(a[k]));
        } else {
            assert(lexed_token(b[k - a.len()]));
        }
    }
}

/// Scanning from a reachable buffer state only produces atoms and
/// parentheses; in particular every token of [`spec_tokenize`] is one.
pub proof fn lemma_lex_wf(s: Seq<char>, buf: Seq<char>)
    requires
        partial_buf(buf),
    ensures
        forall|k: int| 0 <= k < lex(s, buf).len() ==> lexed_token(#[trigger] lex(s, buf)[k]),
    decreases s.len(),
{
    if s.len() == 0 {
        if !in_string(buf) && buf.len() > 0 {
            assert(bare_token(buf));
        }
    } else {
        let c = s[0];
        let rest = s.drop_first();
        if in_string(buf) {
            if c == '"' {
                assert(quoted_token(buf.push(c)));
                lemma_lex_wf(rest, Seq::empty());
                lemma_lexed_concat(seq![buf.push(c)], lex(rest, Seq::empty()));
                assert(lex(s, buf) == seq![buf.push(c)] + lex(rest, Seq::empty()));
            } else {
                assert(partial_buf(buf.push(c)));
                lemma_lex_wf(rest, buf.push(c));
                assert(lex(s, buf) == lex(rest, buf.push(c)));
            }
        } else {
            if buf.len() > 0 {
                assert(bare_token(buf));
            }
            if c == '(' {
                lemma_lex_wf(rest, Seq::empty());
                lemma_lexed_concat(flush(buf), seq![lparen()]);
                lemma_lexed_concat(flush(buf) + seq![lparen()], lex(rest, Seq::empty()));
                assert(lex(s, buf) == flush(buf) + seq![lparen()] + lex(rest, Seq::empty()));
            } else if c == ')' {
                lemma_lex_wf(rest, Seq::empty());
                lemma_lexed_concat(flush(buf), seq![rparen()]);
                lemma_lexed_concat(flush(buf) + seq![rparen()], lex(rest, Seq::empty()));
                assert(lex(s, buf) == flush(buf) + seq![rparen()] + lex(rest, Seq::empty()));
            } else if c == ' ' {
                lemma_lex_wf(rest, Seq::empty());
                lemma_lexed_concat(flush(buf), lex(rest, Seq::empty()));
                assert(lex(s, buf) == flush(buf) + lex(rest, Seq::empty()));
            } else {
                assert(partial_buf(buf.push(c)));
                lemma_lex_wf(rest, buf.push(c));
                assert(lex(s, buf) == lex(rest, buf.push(c)));
            }
        }
    }
}

/// Splits source text into tokens: `(`, `)`, double-quoted string
/// literals (quotes inclusive), and bare words, exactly as [`lex`]
/// describes.
#[verifier::loop_isolation(false)]
pub fn tokenize(s: &str) -> (r: Vec<String>)
    ensures
        token_views(r@) == spec_tokenize(s@),
{
    let n = s.unicode_len();
    let mut out: Vec<String> = Vec::new();
    let mut buf = String::new();
    let mut i: usize = 0;
    proof {
        assert(s@.subrange(0, n as int) =~= s@);
        assert(token_views(out@) + lex(s@, Seq::empty()) =~~= spec_tokenize(s@));
    }
    while i < n
        invariant
            n == s@.len(),
            0 <= i <= n,
            token_views(out@) + lex(s@.subrange(i as int, n as int), buf@) == spec_tokenize(
                s@,
            ),
        decreases n - i,
    {
        let c = s.get_char(i);
        let ghost pending = s@.subrange(i as int, n as int);
        let ghost rest = s@.subrange(i as int + 1, n as int);
        let ghost old_buf = buf@;
        let ghost old_out = out@;
        proof {
            assert(pending[0] == s@[i as int]);
            assert(pending.drop_first() =~= rest);
        }
        let in_str = if buf.as_str().unicode_len() == 0 {
            false
        } else {
            buf.as_str().get_char(0) == '"'
        };
        if in_str {
            push_char(&mut buf, c);
            if c == '"' {
                out.push(buf);
                buf = String::new();
            }
        } else if c == '(' || c == ')' || c == ' ' {
            if buf.as_str().unicode_len() != 0 {
                out.push(buf);
                buf = String::new();
            }
            if c != ' ' {
                let mut paren = String::new();
                push_char(&mut paren, c);
                out.push(paren);
            }
        } else {
            push_char(&mut buf, c);
        }
        proof {
            let ch = s@[i as int];
            if in_string(old_buf) {
                if ch == '"' {
                    assert(lex(pending, old_buf) == seq![old_buf.push(ch)] + lex(
                        rest,
                        Seq::empty(),
                    ));
                    assert(token_views(out@) =~= token_views(old_out).push(old_buf.push(ch)));
                    assert(token_views(out@) + lex(rest, buf@) =~= token_views(old_out) + (seq![
                        old_buf.push(ch),
                    ] + lex(rest, Seq::empty())));
                } else {
                    assert(lex(pending, old_buf) == lex(rest, old_buf.push(ch)));
                    assert(buf@ == old_buf.push(ch));
                }
            } else if ch == '(' || ch == ')' || ch == ' ' {
                let ghost ptok: Seq<Seq<char>> = if ch == ' ' {
                    Seq::empty()
                } else if ch == '(' {
                    seq![lparen()]
                } else {
                    seq![rparen()]
                };
                assert(lex(pending, old_buf) == flush(old_buf) + ptok + lex(rest, Seq::empty()));
                if ch != ' ' {
                    assert(Seq::empty().push(ch) =~= seq![ch]);
                }
                assert(buf@ =~= Seq::<char>::empty());
                assert(token_views(out@) =~= token_views(old_out) + flush(old_buf) + ptok);
                assert(token_views(out@) + lex(rest, buf@) =~= token_views(old_out) + (flush(
                    old_buf,
                ) + ptok + lex(rest, Seq::empty())));
            } else {
                assert(lex(pending, old_buf) == lex(rest, old_buf.push(ch)));
                assert(buf@ == old_buf.push(ch));
            }
            assert(token_views(out@) + lex(rest, buf@) == spec_tokenize(s@));
        }
        i += 1;
    }
    if buf.as_str().unicode_len() != 0 {
        let not_literal = buf.as_str().get_char(0) != '"';
        if not_literal {
            out.push(buf);
        }
    }
    proof {
        assert(s@.subrange(n as int, n as int) =~= Seq::<char>::empty());
        assert(token_views(out@) =~~= spec_tokenize(s@));
    }
    out
}

} // verus!
