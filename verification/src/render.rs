//! Rendering a tree back into source text: leaves joined with spaces,
//! nodes wrapped in parentheses. Re-tokenizing a rendered well-formed
//! tree yields exactly the tree's tokens, and re-parsing those yields
//! the tree itself: the full round trip.

use vstd::prelude::*;

use crate::parse::{spec_parse, ParseError};
use crate::token::{flush, in_string, lex, lexed_token, spec_tokenize, lemma_lex_wf};
use crate::tree::{
    atom_token, bare_token, forms_tokens, lparen, no_paren_leaves, quoted_token, rparen,
    tree_tokens, views_of, wf_tree, SpecTree, Tree,
};

verus! {

/// The source text a tree renders to: a leaf is its token, a node wraps
/// its children, joined with single spaces, in parentheses.
pub open spec fn render(t: SpecTree) -> Seq<char>
    decreases t, 0int,
{
    match t {
        SpecTree::Leaf(s) => s,
        SpecTree::Node(cs) => lparen() + render_forms(cs, 0) + rparen(),
    }
}

/// The rendering of the children `cs[from..]`, joined with single
/// spaces.
pub open spec fn render_forms(cs: Seq<SpecTree>, from: int) -> Seq<char>
    decreases cs, cs.len() - from,
{
    if 0 <= from < cs.len() {
        if from == cs.len() - 1 {
            render(cs[from])
        } else {
            render(cs[from]) + seq![' '] + render_forms(cs, from + 1)
        }
    } else {
        Seq::empty()
    }
}

/// The text that follows a token in a rendering starts with a
/// separator, or is over.
pub open spec fn delim_start(rest: Seq<char>) -> bool {
    ||| rest.len() == 0
    ||| rest[0] == ' '
    ||| rest[0] == '('
    ||| rest[0] == ')'
}

/// Scanning the remaining characters of a bare token just extends the
/// buffer with them.
proof fn lemma_lex_bare(s: Seq<char>, k: int, rest: Seq<char>)
    requires
        bare_token(s),
        0 <= k <= s.len(),
    ensures
        lex(s.subrange(k, s.len() as int) + rest, s.subrange(0, k)) == lex(rest, s),
    decreases s.len() - k,
{
    if k == s.len() {
        assert(s.subrange(k, s.len() as int) + rest =~= rest);
        assert(s.subrange(0, k) =~= s);
    } else {
        let c = s[k];
        let buf = s.subrange(0, k);
        let whole = s.subrange(k, s.len() as int) + rest;
        assert(whole[0] == c);
        assert(!in_string(buf));
        assert(c != '(' && c != ')' && c != ' ');
        assert(whole.drop_first() =~= s.subrange(k + 1, s.len() as int) + rest);
        assert(buf.push(c) =~= s.subrange(0, k + 1));
        lemma_lex_bare(s, k + 1, rest);
    }
}

/// A bare token in the buffer flushes as one token once a separator or
/// the end of input arrives.
proof fn lemma_lex_bare_flush(s: Seq<char>, rest: Seq<char>)
    requires
        bare_token(s),
        delim_start(rest),
    ensures
        lex(rest, s) == seq![s] + lex(rest, Seq::empty()),
{
    assert(!in_string(s));
    if rest.len() == 0 {
        assert(seq![s] + lex(rest, Seq::empty()) =~= seq![s]);
    } else if rest[0] == ' ' {
        assert(lex(rest, s) == flush(s) + lex(rest.drop_first(), Seq::empty()));
        assert(lex(rest, Seq::empty()) == flush(Seq::empty()) + lex(rest.drop_first(), Seq::empty()));
        assert(lex(rest, s) =~= seq![s] + lex(rest, Seq::empty()));
    } else if rest[0] == '(' {
        assert(lex(rest, s) =~= seq![s] + lex(rest, Seq::empty()));
    } else {
        assert(lex(rest, s) =~= seq![s] + lex(rest, Seq::empty()));
    }
}

/// Scanning the remaining characters of a quoted token accumulates them
/// and flushes the whole literal at its closing quote.
proof fn lemma_lex_quoted(s: Seq<char>, k: int, rest: Seq<char>)
    requires
        quoted_token(s),
        1 <= k <= s.len() - 1,
    ensures
        lex(s.subrange(k, s.len() as int) + rest, s.subrange(0, k)) == seq![s] + lex(
            rest,
            Seq::empty(),
        ),
    decreases s.len() - k,
{
    let c = s[k];
    let buf = s.subrange(0, k);
    let whole = s.subrange(k, s.len() as int) + rest;
    assert(whole[0] == c);
    assert(in_string(buf));
    assert(whole.drop_first() =~= s.subrange(k + 1, s.len() as int) + rest);
    if k == s.len() - 1 {
        assert(c == '"');
        assert(buf.push(c) =~= s);
        assert(whole.drop_first() =~= rest);
        assert(lex(whole, buf) == seq![buf.push(c)] + lex(rest, Seq::empty()));
    } else {
        assert(c != '"');
        assert(buf.push(c) =~= s.subrange(0, k + 1));
        lemma_lex_quoted(s, k + 1, rest);
    }
}

/// Scanning one atom token followed by a separator yields the token and
/// goes on with an empty buffer.
proof fn lemma_lex_token(tok: Seq<char>, rest: Seq<char>)
    requires
        atom_token(tok),
        delim_start(rest),
    ensures
        lex(tok + rest, Seq::empty()) == seq![tok] + lex(rest, Seq::empty()),
{
    let whole = tok + rest;
    assert(whole[0] == tok[0]);
    assert(whole.drop_first() =~= tok.subrange(1, tok.len() as int) + rest);
    if bare_token(tok) {
        assert(whole =~= tok.subrange(0, tok.len() as int) + rest);
        lemma_lex_bare(tok, 0, rest);
        assert(tok.subrange(0, 0) =~= Seq::<char>::empty());
        lemma_lex_bare_flush(tok, rest);
    } else {
        assert(tok[0] == '"');
        assert(!in_string(Seq::<char>::empty()));
        assert(Seq::<char>::empty().push('"') =~= tok.subrange(0, 1));
        lemma_lex_quoted(tok, 1, rest);
    }
}

/// Tokenizing the rendering of a well-formed tree, followed by anything
/// that starts with a separator, yields exactly the tree's tokens and
/// then the tokens of the rest.
pub proof fn lemma_lex_render(t: SpecTree, rest: Seq<char>)
    requires
        wf_tree(t),
        delim_start(rest),
    ensures
        lex(render(t) + rest, Seq::empty()) == tree_tokens(t) + lex(rest, Seq::empty()),
    decreases t, 0int,
{
    match t {
        SpecTree::Leaf(s) => {
            lemma_lex_token(s, rest);
        },
        SpecTree::Node(cs) => {
            let inner = render_forms(cs, 0);
            let whole = render(t) + rest;
            assert(whole[0] == '(');
            assert(!in_string(Seq::<char>::empty()));
            assert(whole.drop_first() =~= inner + (rparen() + rest));
            assert(lex(whole, Seq::empty()) == flush(Seq::empty()) + seq![lparen()] + lex(
                inner + (rparen() + rest),
                Seq::empty(),
            ));
            assert(delim_start(rparen() + rest));
            lemma_lex_render_forms(cs, 0, rparen() + rest);
            let tail = rparen() + rest;
            assert(tail[0] == ')');
            assert(tail.drop_first() =~= rest);
            assert(lex(tail, Seq::empty()) == flush(Seq::empty()) + seq![rparen()] + lex(
                rest,
                Seq::empty(),
            ));
            assert(lex(whole, Seq::empty()) =~= tree_tokens(t) + lex(rest, Seq::empty()));
        },
    }
}

/// The same for a node's children: their joined rendering tokenizes to
/// their concatenated tokens.
proof fn lemma_lex_render_forms(cs: Seq<SpecTree>, from: int, tail: Seq<char>)
    requires
        0 <= from <= cs.len(),
        forall|i: int| 0 <= i < cs.len() ==> wf_tree(#[trigger] cs[i]),
        delim_start(tail),
    ensures
        lex(render_forms(cs, from) + tail, Seq::empty()) == forms_tokens(cs, from) + lex(
            tail,
            Seq::empty(),
        ),
    decreases cs, cs.len() - from, 1int,
{
    if from == cs.len() {
        assert(render_forms(cs, from) + tail =~= tail);
        assert(forms_tokens(cs, from) + lex(tail, Seq::empty()) =~= lex(tail, Seq::empty()));
    } else if from == cs.len() - 1 {
        lemma_lex_render(cs[from], tail);
        assert(forms_tokens(cs, from) =~= tree_tokens(cs[from]) + forms_tokens(cs, from + 1));
        assert(forms_tokens(cs, from) + lex(tail, Seq::empty()) =~= tree_tokens(cs[from]) + lex(
            tail,
            Seq::empty(),
        ));
    } else {
        let sep_rest = seq![' '] + (render_forms(cs, from + 1) + tail);
        assert(render_forms(cs, from) + tail =~= render(cs[from]) + sep_rest);
        assert(delim_start(sep_rest));
        lemma_lex_render(cs[from], sep_rest);
        assert(sep_rest.drop_first() =~= render_forms(cs, from + 1) + tail);
        assert(lex(sep_rest, Seq::empty()) == flush(Seq::empty()) + lex(
            render_forms(cs, from + 1) + tail,
            Seq::empty(),
        ));
        lemma_lex_render_forms(cs, from + 1, tail);
        assert(lex(render_forms(cs, from) + tail, Seq::empty()) =~= forms_tokens(cs, from) + lex(
            tail,
            Seq::empty(),
        ));
    }
}

/// A token of `cs[i]` is a token of the joined token list.
proof fn lemma_forms_tokens_contains(cs: Seq<SpecTree>, from: int, i: int, tok: Seq<char>)
    requires
        0 <= from <= i < cs.len(),
        tree_tokens(cs[i]).contains(tok),
    ensures
        forms_tokens(cs, from).contains(tok),
    decreases cs.len() - from,
{
    if i == from {
        let k = choose|k: int|
            0 <= k < tree_tokens(cs[i]).len() && (#[trigger] tree_tokens(cs[i])[k]) == tok;
        assert(forms_tokens(cs, from)[k] == tok);
    } else {
        lemma_forms_tokens_contains(cs, from + 1, i, tok);
        let k = choose|k: int|
            0 <= k < forms_tokens(cs, from + 1).len() && (#[trigger] forms_tokens(cs, from + 1)[k])
                == tok;
        assert(forms_tokens(cs, from)[tree_tokens(cs[from]).len() + k] == tok);
    }
}

/// A tree whose leaves are no parentheses and whose tokens are all
/// tokens the tokenizer can produce is well formed: each leaf is an
/// atom.
pub proof fn lemma_wf_from_tokens(t: SpecTree)
    requires
        no_paren_leaves(t),
        forall|tok: Seq<char>| #[trigger] tree_tokens(t).contains(tok) ==> lexed_token(tok),
    ensures
        wf_tree(t),
    decreases t, 0int,
{
    match t {
        SpecTree::Leaf(s) => {
            assert(tree_tokens(t)[0] == s);
            assert(tree_tokens(t).contains(s));
            assert(lexed_token(s));
        },
        SpecTree::Node(cs) => {
            assert forall|i: int| 0 <= i < cs.len() implies wf_tree(#[trigger] cs[i]) by {
                assert forall|tok: Seq<char>| #[trigger]
                    tree_tokens(cs[i]).contains(tok) implies lexed_token(tok) by {
                    lemma_forms_tokens_contains(cs, 0, i, tok);
                    let k = choose|k: int|
                        0 <= k < forms_tokens(cs, 0).len() && (#[trigger] forms_tokens(cs, 0)[k])
                            == tok;
                    assert(tree_tokens(t)[1 + k] == tok);
                    assert(tree_tokens(t).contains(tok));
                }
                lemma_wf_from_tokens(cs[i]);
            }
        },
    }
}

/// The round trip of parsing and rendering: for any source text whose
/// token sequence parses, the parsed tree is well formed, its tokens are
/// exactly the tokens the parse consumed, rendering it back to text and
/// tokenizing that text reproduces those tokens, and parsing them
/// reproduces the tree itself.
pub proof fn lemma_source_round_trip(text: Seq<char>)
    requires
        spec_parse(spec_tokenize(text), 0) is Ok,
    ensures
        ({
            let (t, q) = spec_parse(spec_tokenize(text), 0)->Ok_0;
            &&& wf_tree(t)
            &&& tree_tokens(t) == spec_tokenize(text).subrange(0, q)
            &&& spec_tokenize(render(t)) == tree_tokens(t)
            &&& spec_parse(spec_tokenize(render(t)), 0) == Ok::<_, ParseError>(
                (t, tree_tokens(t).len() as int),
            )
        }),
{
    let toks = spec_tokenize(text);
    let (t, q) = spec_parse(toks, 0)->Ok_0;
    crate::parse::lemma_spec_parse_sound(toks, 0);
    crate::token::lemma_lex_wf(text, Seq::empty());
    assert forall|tok: Seq<char>| #[trigger] tree_tokens(t).contains(tok) implies lexed_token(
        tok,
    ) by {
        let k = choose|k: int|
            0 <= k < tree_tokens(t).len() && (#[trigger] tree_tokens(t)[k]) == tok;
        assert(tree_tokens(t)[k] == toks.subrange(0, q)[k]);
        assert(lexed_token(toks[k]));
    }
    lemma_wf_from_tokens(t);
    lemma_lex_render(t, Seq::empty());
    assert(render(t) + Seq::<char>::empty() =~= render(t));
    assert(lex(Seq::<char>::empty(), Seq::<char>::empty()) =~= Seq::<Seq<char>>::empty());
    assert(tree_tokens(t) + Seq::<Seq<char>>::empty() =~= tree_tokens(t));
    crate::parse::lemma_parse_round_trip(t, Seq::empty());
    assert(tree_tokens(t) + Seq::<Seq<char>>::empty() =~= spec_tokenize(render(t)));
}

/// Renders a tree back into source text, exactly as [`render`] says:
/// leaves joined with single spaces, nodes wrapped in parentheses.
pub fn render_tree(t: &Tree) -> (r: String)
    ensures
        r@ == render(t@),
    decreases t@, 0int,
{
    match t {
        Tree::Leaf(s) => s.clone(),
        Tree::Node(cs) => {
            let mut out = String::new();
            crate::token::push_char(&mut out, '(');
            proof {
                assert(t@->Node_0 == views_of(cs@));
                assert(decreases_to!(t@ => t@->Node_0));
            }
            let inner = render_children(cs, 0);
            out.append(inner.as_str());
            crate::token::push_char(&mut out, ')');
            proof {
                assert(out@ =~= lparen() + render_forms(views_of(cs@), 0) + rparen());
            }
            out
        },
    }
}

/// Renders the children `cs[from..]`, joined with single spaces.
#[verifier::loop_isolation(false)]
fn render_children(cs: &Vec<Tree>, from: usize) -> (r: String)
    requires
        from <= cs@.len(),
    ensures
        r@ == render_forms(views_of(cs@), from as int),
    decreases views_of(cs@), cs@.len() - from + 1,
{
    let ghost kids = views_of(cs@);
    if from >= cs.len() {
        String::new()
    } else {
        proof {
            assert(kids[from as int] == cs@[from as int]@);
        }
        let mut r = render_tree(&cs[from]);
        if from < cs.len() - 1 {
            r.append(" ");
            let rest = render_children(cs, from + 1);
            r.append(rest.as_str());
            proof {
                reveal_strlit(" ");
                assert((" ")@ =~= seq![' ']);
                assert(r@ =~= render(kids[from as int]) + seq![' '] + render_forms(
                    kids,
                    from as int + 1,
                ));
            }
        }
        r
    }
}

} // verus!
