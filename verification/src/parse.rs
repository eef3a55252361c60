//! The parser: recursive descent over the token sequence with one token
//! of lookahead, consuming tokens from a single shared cursor.

use vstd::prelude::*;

use crate::token::token_views;
use crate::tree::{
    forms_tokens, lparen, no_paren_leaves, rparen, tree_tokens, SpecTree, Tree,
};

verus! {

/// Why a token sequence failed to parse.
#[derive(Clone, Copy, Debug, PartialEq, Eq, Structural)]
pub enum ParseError {
    /// The tokens ran out before the expression was complete: an open
    /// `(` without its matching `)`, or no token where an expression was
    /// expected.
    UnexpectedEnd,
    /// A stray `)` stood where an expression was expected.
    UnexpectedClose,
}

/// What parsing one expression at cursor position `p` yields: the tree
/// and the cursor position after it, or the error.
///
/// A `(` begins a node and collects children until the matching `)`;
/// a `)` in expression position is a structural error; any other token
/// is a leaf holding that token verbatim.
pub open spec fn spec_parse(toks: Seq<Seq<char>>, p: int) -> Result<(SpecTree, int), ParseError>
    decreases toks.len() - p, 0int,
{
    if !(0 <= p < toks.len()) {
        Err(ParseError::UnexpectedEnd)
    } else if toks[p] == lparen() {
        match spec_parse_forms(toks, p + 1) {
            Ok((cs, q)) => Ok((SpecTree::Node(cs), q)),
            Err(e) => Err(e),
        }
    } else if toks[p] == rparen() {
        Err(ParseError::UnexpectedClose)
    } else {
        Ok((SpecTree::Leaf(toks[p]), p + 1))
    }
}

/// What parsing a node's remaining children at cursor position `p`
/// yields: the children up to and excluding the closing `)`, and the
/// cursor position after the `)`.
pub open spec fn spec_parse_forms(toks: Seq<Seq<char>>, p: int) -> Result<
    (Seq<SpecTree>, int),
    ParseError,
>
    decreases toks.len() - p, 1int,
{
    if !(0 <= p < toks.len()) {
        Err(ParseError::UnexpectedEnd)
    } else if toks[p] == rparen() {
        Ok((Seq::empty(), p + 1))
    } else {
        match spec_parse(toks, p) {
            Err(e) => Err(e),
            Ok((t, q)) => if p < q <= toks.len() {
                match spec_parse_forms(toks, q) {
                    Err(e) => Err(e),
                    Ok((cs, r)) => Ok((seq![t] + cs, r)),
                }
            } else {
                Err(ParseError::UnexpectedEnd)
            },
        }
    }
}

/// Shifting a fresh first element: the tokens of `cs[from..]` equal the
/// tokens of `(cons t cs)[from + 1..]`.
proof fn lemma_forms_tokens_shift(t: SpecTree, cs: Seq<SpecTree>, from: int)
    requires
        0 <= from <= cs.len(),
    ensures
        forms_tokens(seq![t] + cs, from + 1) == forms_tokens(cs, from),
    decreases cs.len() - from,
{
    if from < cs.len() {
        assert((seq![t] + cs)[from + 1] == cs[from]);
        lemma_forms_tokens_shift(t, cs, from + 1);
    }
}

/// A parse is sound: the tree it returns serializes back to exactly the
/// tokens the cursor moved over, and none of its leaves is a
/// parenthesis.
pub proof fn lemma_spec_parse_sound(toks: Seq<Seq<char>>, p: int)
    requires
        spec_parse(toks, p) is Ok,
    ensures
        ({
            let (t, q) = spec_parse(toks, p)->Ok_0;
            &&& p < q <= toks.len()
            &&& tree_tokens(t) == toks.subrange(p, q)
            &&& no_paren_leaves(t)
        }),
    decreases toks.len() - p, 0int,
{
    let (t, q) = spec_parse(toks, p)->Ok_0;
    if toks[p] == lparen() {
        let (cs, q2) = spec_parse_forms(toks, p + 1)->Ok_0;
        lemma_spec_parse_forms_sound(toks, p + 1);
        assert(t == SpecTree::Node(cs) && q == q2);
        assert(forms_tokens(cs, 0) + seq![rparen()] == toks.subrange(p + 1, q));
        let a = seq![lparen()];
        let b = forms_tokens(cs, 0);
        let c = seq![rparen()];
        let m = b.len() as int;
        assert(tree_tokens(t) == (a + b) + c);
        assert((b + c).len() == m + 1);
        assert(q == p + m + 2);
        assert(tree_tokens(t) =~= toks.subrange(p, q)) by {
            assert forall|k: int| 0 <= k < m + 2 implies #[trigger] ((a + b) + c)[k]
                == toks.subrange(p, q)[k] by {
                if k == 0 {
                    assert(((a + b) + c)[0] == a[0]);
                } else if k <= m {
                    assert(((a + b) + c)[k] == b[k - 1]);
                    assert((b + c)[k - 1] == b[k - 1]);
                    assert((b + c)[k - 1] == toks.subrange(p + 1, q)[k - 1]);
                } else {
                    assert(((a + b) + c)[k] == c[k - m - 1]);
                    assert((b + c)[k - 1] == c[k - m - 1]);
                    assert((b + c)[k - 1] == toks.subrange(p + 1, q)[k - 1]);
                }
            }
        }
    } else {
        assert(tree_tokens(t) =~= toks.subrange(p, q));
    }
}

/// Parsing a node's children is sound: the children and the closing `)`
/// serialize back to exactly the tokens the cursor moved over.
pub proof fn lemma_spec_parse_forms_sound(toks: Seq<Seq<char>>, p: int)
    requires
        spec_parse_forms(toks, p) is Ok,
    ensures
        ({
            let (cs, q) = spec_parse_forms(toks, p)->Ok_0;
            &&& p < q <= toks.len()
            &&& forms_tokens(cs, 0) + seq![rparen()] == toks.subrange(p, q)
            &&& forall|i: int| 0 <= i < cs.len() ==> no_paren_leaves(#[trigger] cs[i])
        }),
    decreases toks.len() - p, 1int,
{
    let (cs, q) = spec_parse_forms(toks, p)->Ok_0;
    if toks[p] == rparen() {
        assert(forms_tokens(cs, 0) + seq![rparen()] =~= toks.subrange(p, q));
    } else {
        let (t, q1) = spec_parse(toks, p)->Ok_0;
        let (cs1, q2) = spec_parse_forms(toks, q1)->Ok_0;
        lemma_spec_parse_sound(toks, p);
        lemma_spec_parse_forms_sound(toks, q1);
        lemma_forms_tokens_shift(t, cs1, 0);
        assert(forms_tokens(cs, 0) == tree_tokens(t) + forms_tokens(cs1, 0));
        assert(forms_tokens(cs, 0) + seq![rparen()] =~= toks.subrange(p, q1) + (forms_tokens(
            cs1,
            0,
        ) + seq![rparen()]));
        assert(toks.subrange(p, q1) + toks.subrange(q1, q2) =~= toks.subrange(p, q));
        assert forall|i: int| 0 <= i < cs.len() implies no_paren_leaves(#[trigger] cs[i]) by {
            if i > 0 {
                assert(cs[i] == cs1[i - 1]);
            }
        }
    }
}

/// The first token of a tree whose leaves hold no parenthesis is never
/// the closing parenthesis.
proof fn lemma_tree_first_token(t: SpecTree)
    requires
        no_paren_leaves(t),
    ensures
        tree_tokens(t).len() >= 1,
        tree_tokens(t)[0] != rparen(),
{
    match t {
        SpecTree::Leaf(_) => {},
        SpecTree::Node(_) => {
            assert(tree_tokens(t)[0] == lparen());
            assert(lparen()[0] == '(');
            assert(lparen() != rparen());
        },
    }
}

/// A parse is complete and unambiguous: whenever the tokens starting at
/// the cursor begin with the serialization of a tree whose leaves hold
/// no parenthesis, parsing returns exactly that tree and stops right
/// after its tokens.
pub proof fn lemma_spec_parse_complete(toks: Seq<Seq<char>>, p: int, t: SpecTree)
    requires
        no_paren_leaves(t),
        0 <= p,
        p + tree_tokens(t).len() <= toks.len(),
        toks.subrange(p, p + tree_tokens(t).len()) == tree_tokens(t),
    ensures
        spec_parse(toks, p) == Ok::<_, ParseError>((t, p + tree_tokens(t).len())),
    decreases t, 0int,
{
    let n = tree_tokens(t).len() as int;
    assert(toks[p] == tree_tokens(t)[0]);
    match t {
        SpecTree::Leaf(s) => {
            assert(tree_tokens(t) == seq![s]);
            assert(toks[p] == s);
        },
        SpecTree::Node(cs) => {
            assert(tree_tokens(t) == seq![lparen()] + forms_tokens(cs, 0) + seq![rparen()]);
            assert(toks[p] == lparen());
            let m = forms_tokens(cs, 0).len() as int;
            assert(toks.subrange(p + 1, p + 1 + m + 1) =~= forms_tokens(cs, 0) + seq![
                rparen(),
            ]) by {
                assert forall|k: int| 0 <= k < m + 1 implies toks.subrange(
                    p + 1,
                    p + 1 + m + 1,
                )[k] == (forms_tokens(cs, 0) + seq![rparen()])[k] by {
                    assert(toks[p + 1 + k] == tree_tokens(t)[1 + k]);
                }
            }
            lemma_spec_parse_forms_complete(toks, p + 1, cs, 0);
            assert(cs.subrange(0, cs.len() as int) =~= cs);
        },
    }
}

/// Completeness for a node's children: if the tokens at the cursor read
/// as the serializations of `cs[from..]` followed by `)`, parsing the
/// children returns exactly `cs[from..]` and stops after the `)`.
pub proof fn lemma_spec_parse_forms_complete(
    toks: Seq<Seq<char>>,
    p: int,
    cs: Seq<SpecTree>,
    from: int,
)
    requires
        0 <= from <= cs.len(),
        forall|i: int| from <= i < cs.len() ==> no_paren_leaves(#[trigger] cs[i]),
        0 <= p,
        p + forms_tokens(cs, from).len() + 1 <= toks.len(),
        toks.subrange(p, p + forms_tokens(cs, from).len() + 1) == forms_tokens(cs, from) + seq![
            rparen(),
        ],
    ensures
        spec_parse_forms(toks, p) == Ok::<_, ParseError>(
            (cs.subrange(from, cs.len() as int), p + forms_tokens(cs, from).len() + 1),
        ),
    decreases cs, cs.len() - from, 1int,
{
    let m = forms_tokens(cs, from).len() as int;
    assert(toks[p] == (forms_tokens(cs, from) + seq![rparen()])[0]);
    if from == cs.len() {
        assert(forms_tokens(cs, from) == Seq::<Seq<char>>::empty());
        assert(toks[p] == rparen());
        assert(cs.subrange(from, cs.len() as int) =~= Seq::<SpecTree>::empty());
        assert(spec_parse_forms(toks, p) == Ok::<_, ParseError>((Seq::<SpecTree>::empty(), p + 1)));
    } else {
        let t = cs[from];
        let tn = tree_tokens(t).len() as int;
        assert(forms_tokens(cs, from) == tree_tokens(t) + forms_tokens(cs, from + 1));
        lemma_tree_first_token(t);
        assert(toks[p] == tree_tokens(t)[0]);
        assert(toks[p] != rparen());
        assert(toks.subrange(p, p + tn) =~= tree_tokens(t)) by {
            assert forall|k: int| 0 <= k < tn implies toks.subrange(p, p + tn)[k] == tree_tokens(
                t,
            )[k] by {
                assert(toks[p + k] == (forms_tokens(cs, from) + seq![rparen()])[k]);
            }
        }
        lemma_spec_parse_complete(toks, p, t);
        let q1 = p + tn;
        assert(toks.subrange(q1, q1 + forms_tokens(cs, from + 1).len() + 1) =~= forms_tokens(
            cs,
            from + 1,
        ) + seq![rparen()]) by {
            assert forall|k: int| 0 <= k < forms_tokens(cs, from + 1).len() + 1 implies #[trigger]
                toks.subrange(q1, q1 + forms_tokens(cs, from + 1).len() + 1)[k] == (forms_tokens(
                cs,
                from + 1,
            ) + seq![rparen()])[k] by {
                assert(toks[q1 + k] == (forms_tokens(cs, from) + seq![rparen()])[tn + k]);
            }
        }
        lemma_spec_parse_forms_complete(toks, q1, cs, from + 1);
        assert(seq![t] + cs.subrange(from + 1, cs.len() as int) =~= cs.subrange(
            from,
            cs.len() as int,
        ));
    }
}

/// For any tree without parenthesis leaves, parsing its serialization
/// (with anything after it) reproduces the tree itself: parsing inverts
/// serialization.
pub proof fn lemma_parse_round_trip(t: SpecTree, rest: Seq<Seq<char>>)
    requires
        no_paren_leaves(t),
    ensures
        spec_parse(tree_tokens(t) + rest, 0) == Ok::<_, ParseError>(
            (t, tree_tokens(t).len() as int),
        ),
{
    let toks = tree_tokens(t) + rest;
    assert(toks.subrange(0, tree_tokens(t).len() as int) =~= tree_tokens(t));
    lemma_spec_parse_complete(toks, 0, t);
}

/// Does this token consist of the single character `c`?
fn is_char_token(tok: &String, c: char) -> (r: bool)
    ensures
        r == (tok@ =~= seq![c]),
{
    if tok.as_str().unicode_len() == 1 {
        let r = tok.as_str().get_char(0) == c;
        proof {
            if r {
                assert(tok@ =~= seq![c]);
            }
        }
        r
    } else {
        false
    }
}

/// Parses one expression starting at `pos`, returning the tree (or the
/// error) together with the cursor position after it, exactly as
/// [`spec_parse`] describes.
#[verifier::loop_isolation(false)]
fn parse_at(toks: &Vec<String>, pos: usize) -> (r: (Result<Tree, ParseError>, usize))
    requires
        pos <= toks@.len(),
    ensures
        match r.0 {
            Ok(t) => {
                &&& spec_parse(token_views(toks@), pos as int) == Ok::<_, ParseError>(
                    (t@, r.1 as int),
                )
                &&& pos < r.1 <= toks@.len()
            },
            Err(e) => spec_parse(token_views(toks@), pos as int) == Err::<
                (SpecTree, int),
                ParseError,
            >(e),
        },
    decreases toks@.len() - pos,
{
    let ghost tv = token_views(toks@);
    if pos >= toks.len() {
        return (Err(ParseError::UnexpectedEnd), pos);
    }
    let open = is_char_token(&toks[pos], '(');
    let close = is_char_token(&toks[pos], ')');
    proof {
        assert(tv[pos as int] == toks@[pos as int]@);
        assert(lparen() =~= seq!['(']);
        assert(rparen() =~= seq![')']);
    }
    if open {
        let mut cur = pos + 1;
        let mut children: Vec<Tree> = Vec::new();
        loop
            invariant
                pos + 1 <= cur <= toks@.len(),
                ({
                    let kids = Seq::new(children@.len(), |i: int| children@[i]@);
                    match spec_parse_forms(tv, cur as int) {
                        Ok((cs2, q)) => spec_parse_forms(tv, pos + 1) == Ok::<_, ParseError>(
                            (kids + cs2, q),
                        ),
                        Err(e) => spec_parse_forms(tv, pos + 1) == Err::<
                            (Seq<SpecTree>, int),
                            ParseError,
                        >(e),
                    }
                }),
            decreases toks@.len() - cur,
        {
            let ghost kids = Seq::new(children@.len(), |i: int| children@[i]@);
            if cur >= toks.len() {
                return (Err(ParseError::UnexpectedEnd), cur);
            }
            proof {
                assert(tv[cur as int] == toks@[cur as int]@);
            }
            if is_char_token(&toks[cur], ')') {
                proof {
                    assert(spec_parse_forms(tv, cur as int) == Ok::<_, ParseError>(
                        (Seq::<SpecTree>::empty(), cur + 1),
                    ));
                    assert(kids + Seq::<SpecTree>::empty() =~= kids);
                    assert(Tree::Node(children)@->Node_0 =~= kids);
                    assert(Tree::Node(children)@ == SpecTree::Node(kids));
                }
                return (Ok(Tree::Node(children)), cur + 1);
            }
            let (child, next) = parse_at(toks, cur);
            match child {
                Err(e) => {
                    proof {
                        assert(spec_parse_forms(tv, cur as int) == Err::<
                            (Seq<SpecTree>, int),
                            ParseError,
                        >(e));
                    }
                    return (Err(e), next);
                },
                Ok(t) => {
                    proof {
                        let cview = t@;
                        assert(match spec_parse_forms(tv, next as int) {
                            Ok((cs3, q)) => spec_parse_forms(tv, cur as int) == Ok::<
                                _,
                                ParseError,
                            >((seq![cview] + cs3, q)),
                            Err(e) => spec_parse_forms(tv, cur as int) == Err::<
                                (Seq<SpecTree>, int),
                                ParseError,
                            >(e),
                        });
                    }
                    children.push(t);
                    proof {
                        let kids2 = Seq::new(children@.len(), |i: int| children@[i]@);
                        assert(kids2 =~= kids.push(children@[children@.len() - 1]@));
                        match spec_parse_forms(tv, next as int) {
                            Ok((cs3, q)) => {
                                assert(kids2 + cs3 =~= kids + (seq![
                                    children@[children@.len() - 1]@,
                                ] + cs3));
                            },
                            Err(_) => {},
                        }
                    }
                    cur = next;
                },
            }
        }
    } else if close {
        (Err(ParseError::UnexpectedClose), pos)
    } else {
        proof {
            assert(tv[pos as int] != lparen() && tv[pos as int] != rparen());
            assert(Tree::Leaf(toks@[pos as int])@ == SpecTree::Leaf(tv[pos as int]));
        }
        (Ok(Tree::Leaf(toks[pos].clone())), pos + 1)
    }
}

/// Parses the first expression of the token sequence, as [`spec_parse`]
/// from cursor position zero describes; tokens after that expression are
/// ignored. On success the tree serializes back to exactly the tokens it
/// was read from.
pub fn parse(tokens: &Vec<String>) -> (r: Result<Tree, ParseError>)
    ensures
        match r {
            Ok(t) => {
                &&& spec_parse(token_views(tokens@), 0) == Ok::<_, ParseError>(
                    (t@, tree_tokens(t@).len() as int),
                )
                &&& no_paren_leaves(t@)
                &&& tree_tokens(t@).len() <= tokens@.len()
                &&& tree_tokens(t@) == token_views(tokens@).subrange(
                    0,
                    tree_tokens(t@).len() as int,
                )
            },
            Err(e) => spec_parse(token_views(tokens@), 0) == Err::<(SpecTree, int), ParseError>(e),
        },
{
    let (r, _end) = parse_at(tokens, 0);
    proof {
        if r is Ok {
            lemma_spec_parse_sound(token_views(tokens@), 0);
        }
    }
    r
}

} // verus!
