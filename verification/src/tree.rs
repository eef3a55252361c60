//! The parse tree: a leaf holding one token, or a node holding an ordered
//! list of child trees, together with its mathematical model.

use vstd::prelude::*;

verus! {

/// A parse tree. A `Leaf` holds one token verbatim; a `Node` holds the
/// ordered children of one parenthesized form.
#[derive(Debug, PartialEq)]
pub enum Tree {
    Leaf(String),
    Node(Vec<Tree>),
}

/// The mathematical model of a [`Tree`]: tokens become sequences of
/// characters, child vectors become sequences of model trees.
pub ghost enum SpecTree {
    Leaf(Seq<char>),
    Node(Seq<SpecTree>),
}

/// The model trees of a vector of trees, element by element.
pub open spec fn views_of(ts: Seq<Tree>) -> Seq<SpecTree>
    decreases ts,
{
    Seq::new(
        ts.len(),
        |i: int|
            if 0 <= i < ts.len() {
                ts[i]@
            } else {
                SpecTree::Leaf(Seq::empty())
            },
    )
}

impl View for Tree {
    type V = SpecTree;

    open spec fn view(&self) -> SpecTree
        decreases self,
    {
        match self {
            Tree::Leaf(s) => SpecTree::Leaf(s@),
            Tree::Node(cs) => SpecTree::Node(views_of(cs@)),
        }
    }
}

/// The one-character token that opens a parenthesized form.
pub open spec fn lparen() -> Seq<char> {
    seq!['(']
}

/// The one-character token that closes a parenthesized form.
pub open spec fn rparen() -> Seq<char> {
    seq![')']
}

/// A double-quoted string-literal token: opening and closing quote
/// inclusive, with no further quote in between.
pub open spec fn quoted_token(s: Seq<char>) -> bool {
    &&& s.len() >= 2
    &&& s[0] == '"'
    &&& s[s.len() - 1] == '"'
    &&& forall|i: int| 0 < i < s.len() - 1 ==> s[i] != '"'
}

/// A bare-word token: non-empty, not starting with a quote, and free of
/// the separator characters the tokenizer splits on.
pub open spec fn bare_token(s: Seq<char>) -> bool {
    &&& s.len() >= 1
    &&& s[0] != '"'
    &&& forall|i: int| 0 <= i < s.len() ==> s[i] != ' ' && s[i] != '(' && s[i] != ')'
}

/// A token that stands for itself when rendered back into source text:
/// either a closed string literal or a bare word.
pub open spec fn atom_token(s: Seq<char>) -> bool {
    quoted_token(s) || bare_token(s)
}

/// Every leaf of the tree is an atom token. Trees built by the parser
/// from tokenizer output satisfy this.
pub open spec fn wf_tree(t: SpecTree) -> bool
    decreases t,
{
    match t {
        SpecTree::Leaf(s) => atom_token(s),
        SpecTree::Node(cs) => forall|i: int| 0 <= i < cs.len() ==> wf_tree(#[trigger] cs[i]),
    }
}

/// No leaf of the tree holds a parenthesis token. Every tree the parser
/// returns satisfies this, whatever the input tokens were.
pub open spec fn no_paren_leaves(t: SpecTree) -> bool
    decreases t,
{
    match t {
        SpecTree::Leaf(s) => s != lparen() && s != rparen(),
        SpecTree::Node(cs) => forall|i: int|
            0 <= i < cs.len() ==> no_paren_leaves(#[trigger] cs[i]),
    }
}

/// The token sequence a tree stands for: a leaf is its one token, a node
/// is `(`, the tokens of its children in order, then `)`.
pub open spec fn tree_tokens(t: SpecTree) -> Seq<Seq<char>>
    decreases t, 0int,
{
    match t {
        SpecTree::Leaf(s) => seq![s],
        SpecTree::Node(cs) => seq![lparen()] + forms_tokens(cs, 0) + seq![rparen()],
    }
}

/// The concatenated token sequences of `cs[from..]`.
pub open spec fn forms_tokens(cs: Seq<SpecTree>, from: int) -> Seq<Seq<char>>
    decreases cs, cs.len() - from,
{
    if 0 <= from < cs.len() {
        tree_tokens(cs[from]) + forms_tokens(cs, from + 1)
    } else {
        Seq::empty()
    }
}

/// Structural equality of two trees, decided leaf by leaf.
#[verifier::loop_isolation(false)]
pub fn tree_eq(a: &Tree, b: &Tree) -> (r: bool)
    ensures
        r == (a@ == b@),
    decreases a,
{
    match a {
        Tree::Leaf(x) => {
            match b {
                Tree::Leaf(y) => *x == *y,
                Tree::Node(_) => false,
            }
        },
        Tree::Node(xs) => {
            match b {
                Tree::Leaf(_) => false,
                Tree::Node(ys) => {
                    if xs.len() != ys.len() {
                        proof {
                            assert(a@->Node_0.len() != b@->Node_0.len());
                        }
                        false
                    } else {
                        let n = xs.len();
                        let mut i: usize = 0;
                        let mut same = true;
                        while i < n
                            invariant
                                n == xs@.len() == ys@.len(),
                                0 <= i <= n,
                                same == (forall|j: int| 0 <= j < i ==> xs@[j]@ == ys@[j]@),
                            decreases n - i,
                        {
                            if !tree_eq(&xs[i], &ys[i]) {
                                same = false;
                            }
                            i += 1;
                        }
                        proof {
                            if same {
                                assert(a@->Node_0 =~= b@->Node_0);
                            } else {
                                let j = choose|j: int| 0 <= j < n && xs@[j]@ != ys@[j]@;
                                assert(a@->Node_0[j] == xs@[j]@);
                                assert(b@->Node_0[j] == ys@[j]@);
                            }
                        }
                        same
                    }
                },
            }
        },
    }
}

/// A deep copy of a tree, equal to the original in the model.
#[verifier::loop_isolation(false)]
pub fn clone_tree(t: &Tree) -> (r: Tree)
    ensures
        r@ == t@,
    decreases t,
{
    match t {
        Tree::Leaf(s) => Tree::Leaf(s.clone()),
        Tree::Node(cs) => {
            let n = cs.len();
            let mut out: Vec<Tree> = Vec::new();
            let mut i: usize = 0;
            while i < n
                invariant
                    n == cs@.len(),
                    0 <= i <= n,
                    out@.len() == i,
                    forall|j: int| 0 <= j < i ==> out@[j]@ == cs@[j]@,
                decreases n - i,
            {
                let c = clone_tree(&cs[i]);
                out.push(c);
                i += 1;
            }
            proof {
                assert(Tree::Node(out)@->Node_0 =~= t@->Node_0);
            }
            Tree::Node(out)
        },
    }
}

} // verus!
