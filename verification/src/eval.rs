//! The evaluator: walks the parse tree, dispatching on special forms and
//! primitive operators, threading the environment for bindings and
//! closures. The spec functions here are the language's semantics; the
//! executable evaluator is proved to return exactly what they say.

use vstd::prelude::*;

use crate::env::{lookup, wf_env, wf_value, Env, SpecScope};
use crate::tree::{views_of, SpecTree, Tree, clone_tree};
use crate::value::{
    clone_value, int_token_value, is_i64_token, parse_i64, str_eq, value_eq, SpecValue, Value,
};

verus! {

/// Why an evaluation failed.
#[derive(Clone, Copy, Debug, PartialEq, Eq, Structural)]
pub enum EvalError {
    /// An identifier was not found in any reachable scope.
    UnboundName,
    /// An operand had the wrong variant: a non-integer arithmetic
    /// operand, or a non-boolean `if` condition.
    TypeMismatch,
    /// A closure was invoked with the wrong number of arguments.
    ArityMismatch,
    /// The head of a call resolved to a value that is not a closure.
    NotCallable,
    /// A division had a zero divisor.
    DivisionByZero,
    /// A special form had the wrong shape: an empty form, an `if` or
    /// `=` or `def` or `fn` with the wrong number or kind of children,
    /// or a `-` or `/` with no operand.
    MalformedForm,
    /// The nesting of closure invocations exceeded the fuel given to
    /// the evaluator.
    DepthExceeded,
}

/// The sequencing form's keyword.
pub open spec fn kw_do() -> Seq<char> {
    seq!['d', 'o']
}

/// The sequencing form's synonym.
pub open spec fn kw_begin() -> Seq<char> {
    seq!['b', 'e', 'g', 'i', 'n']
}

pub open spec fn kw_if() -> Seq<char> {
    seq!['i', 'f']
}

pub open spec fn kw_eq() -> Seq<char> {
    seq!['=']
}

pub open spec fn kw_plus() -> Seq<char> {
    seq!['+']
}

pub open spec fn kw_minus() -> Seq<char> {
    seq!['-']
}

pub open spec fn kw_star() -> Seq<char> {
    seq!['*']
}

pub open spec fn kw_slash() -> Seq<char> {
    seq!['/']
}

pub open spec fn kw_fn() -> Seq<char> {
    seq!['f', 'n']
}

pub open spec fn kw_def() -> Seq<char> {
    seq!['d', 'e', 'f']
}

pub open spec fn kw_true() -> Seq<char> {
    seq!['t', 'r', 'u', 'e']
}

pub open spec fn kw_false() -> Seq<char> {
    seq!['f', 'a', 'l', 's', 'e']
}

/// A head token the evaluator treats as a special form rather than as
/// a closure to invoke.
pub open spec fn is_special(s: Seq<char>) -> bool {
    ||| s == kw_do()
    ||| s == kw_begin()
    ||| s == kw_if()
    ||| s == kw_eq()
    ||| s == kw_plus()
    ||| s == kw_minus()
    ||| s == kw_star()
    ||| s == kw_slash()
    ||| s == kw_fn()
    ||| s == kw_def()
}

/// The lengths and characters of the keyword tokens, from which any two
/// distinct keywords are provably unequal.
pub proof fn lemma_kw_facts()
    ensures
        kw_do().len() == 2 && kw_do()[0] == 'd' && kw_do()[1] == 'o',
        kw_begin().len() == 5 && kw_begin()[0] == 'b',
        kw_if().len() == 2 && kw_if()[0] == 'i',
        kw_eq().len() == 1 && kw_eq()[0] == '=',
        kw_plus().len() == 1 && kw_plus()[0] == '+',
        kw_minus().len() == 1 && kw_minus()[0] == '-',
        kw_star().len() == 1 && kw_star()[0] == '*',
        kw_slash().len() == 1 && kw_slash()[0] == '/',
        kw_fn().len() == 2 && kw_fn()[0] == 'f',
        kw_def().len() == 3 && kw_def()[0] == 'd' && kw_def()[1] == 'e',
        kw_true().len() == 4 && kw_true()[0] == 't',
        kw_false().len() == 5 && kw_false()[0] == 'f',
{
}

/// What a leaf token denotes: a string literal with its quotes kept, an
/// integer in the `i64` range, one of the boolean literals, or the value
/// the current scope chain binds the name to.
pub open spec fn spec_to_value(s: Seq<char>, env: Seq<SpecScope>, cur: int) -> Result<
    SpecValue,
    EvalError,
> {
    if s.len() > 0 && s[0] == '"' {
        Ok(SpecValue::Str(s))
    } else if is_i64_token(s) {
        Ok(SpecValue::Int(int_token_value(s).unwrap() as i64))
    } else if s == kw_true() {
        Ok(SpecValue::Bool(true))
    } else if s == kw_false() {
        Ok(SpecValue::Bool(false))
    } else {
        match lookup(env, cur, s) {
            Some(v) => Ok(v),
            None => Err(EvalError::UnboundName),
        }
    }
}

/// The four variadic arithmetic forms.
#[derive(Clone, Copy, Debug, PartialEq, Eq, Structural)]
pub enum ArithOp {
    Add,
    Sub,
    Mul,
    Div,
}

/// Truncating `i64` division that wraps on the one overflowing case,
/// `i64::MIN / -1`. Never applied to a zero divisor.
pub open spec fn div_wrap(a: i64, b: i64) -> i64 {
    if b == 0 {
        0
    } else {
        match a.checked_div(b) {
            Some(q) => q,
            None => i64::MIN,
        }
    }
}

/// One fold step of an arithmetic form, with wrapping fixed-width
/// semantics.
pub open spec fn apply_op(op: ArithOp, acc: i64, x: i64) -> i64 {
    match op {
        ArithOp::Add => vstd::wrapping::i64_specs::wrapping_add(acc, x),
        ArithOp::Sub => vstd::wrapping::i64_specs::wrapping_sub(acc, x),
        ArithOp::Mul => vstd::wrapping::i64_specs::wrapping_mul(acc, x),
        ArithOp::Div => div_wrap(acc, x),
    }
}

/// Folds the values `vs[i..]` into the accumulator left to right. Fails
/// on the first non-integer operand, or on a zero divisor when dividing.
pub open spec fn fold_arith(op: ArithOp, acc: i64, vs: Seq<SpecValue>, i: int) -> Result<
    i64,
    EvalError,
>
    decreases vs.len() - i,
{
    if !(0 <= i < vs.len()) {
        Ok(acc)
    } else {
        match vs[i] {
            SpecValue::Int(x) => if op is Div && x == 0 {
                Err(EvalError::DivisionByZero)
            } else {
                fold_arith(op, apply_op(op, acc, x), vs, i + 1)
            },
            _ => Err(EvalError::TypeMismatch),
        }
    }
}

/// The result of an arithmetic form on its evaluated operands. `+` and
/// `*` fold from their identities 0 and 1; `-` and `/` seed the
/// accumulator with the first operand itself and need at least one.
pub open spec fn arith_result(op: ArithOp, vs: Seq<SpecValue>) -> Result<SpecValue, EvalError> {
    let folded = match op {
        ArithOp::Add => fold_arith(op, 0, vs, 0),
        ArithOp::Mul => fold_arith(op, 1, vs, 0),
        ArithOp::Sub | ArithOp::Div => if vs.len() == 0 {
            Err(EvalError::MalformedForm)
        } else {
            match vs[0] {
                SpecValue::Int(x) => fold_arith(op, x, vs, 1),
                _ => Err(EvalError::TypeMismatch),
            }
        },
    };
    match folded {
        Ok(q) => Ok(SpecValue::Int(q)),
        Err(e) => Err(e),
    }
}

/// Every tree of the list is a leaf: the shape of a parameter list.
pub open spec fn all_leaves(ps: Seq<SpecTree>) -> bool {
    forall|i: int| 0 <= i < ps.len() ==> ps[i] is Leaf
}

/// The tokens of a list of leaves.
pub open spec fn leaf_names(ps: Seq<SpecTree>) -> Seq<Seq<char>> {
    Seq::new(
        ps.len(),
        |i: int|
            if 0 <= i < ps.len() {
                ps[i]->Leaf_0
            } else {
                Seq::empty()
            },
    )
}

/// The bindings a call installs: each parameter name bound to the
/// corresponding argument value, a repeated name taking the last value.
pub open spec fn bind_params(ps: Seq<Seq<char>>, vs: Seq<SpecValue>) -> Map<Seq<char>, SpecValue>
    decreases ps.len(),
{
    if ps.len() == 0 || vs.len() == 0 {
        Map::empty()
    } else {
        bind_params(ps.drop_last(), vs.drop_last()).insert(ps.last(), vs.last())
    }
}

/// What the `fn` form yields: a closure capturing the current scope,
/// when the form is `(fn (params...) body)` with a node of bare
/// parameter names.
pub open spec fn make_closure(cs: Seq<SpecTree>, cur: int) -> Result<SpecValue, EvalError> {
    if cs.len() == 3 {
        match cs[1] {
            SpecTree::Node(ps) => if all_leaves(ps) {
                Ok(SpecValue::Closure { params: leaf_names(ps), body: cs[2], env: cur })
            } else {
                Err(EvalError::MalformedForm)
            },
            SpecTree::Leaf(_) => Err(EvalError::MalformedForm),
        }
    } else {
        Err(EvalError::MalformedForm)
    }
}

/// What evaluating a tree in scope `cur` yields, and the environment it
/// leaves behind. `fuel` bounds the nesting of closure invocations; each
/// invocation consumes one unit.
///
/// A `Node` dispatches on its first child: the special forms first, then
/// closure invocation, for which the head expression is evaluated, the
/// arity checked, the arguments evaluated left to right, and the body
/// evaluated in a fresh scope whose parent is the closure's captured
/// scope.
pub open spec fn spec_eval(t: SpecTree, env: Seq<SpecScope>, cur: int, fuel: nat) -> (Result<
    SpecValue,
    EvalError,
>, Seq<SpecScope>)
    decreases fuel, t, 0int,
{
    match t {
        SpecTree::Leaf(s) => (spec_to_value(s, env, cur), env),
        SpecTree::Node(cs) => {
            if cs.len() == 0 {
                (Err(EvalError::MalformedForm), env)
            } else {
                match cs[0] {
                    SpecTree::Leaf(h) => {
                        if h == kw_do() || h == kw_begin() {
                            spec_eval_seq(cs, 1, env, cur, fuel)
                        } else if h == kw_if() {
                            spec_eval_if(cs, env, cur, fuel)
                        } else if h == kw_eq() {
                            spec_eval_equal(cs, env, cur, fuel)
                        } else if h == kw_plus() {
                            spec_eval_arith(ArithOp::Add, cs, env, cur, fuel)
                        } else if h == kw_minus() {
                            spec_eval_arith(ArithOp::Sub, cs, env, cur, fuel)
                        } else if h == kw_star() {
                            spec_eval_arith(ArithOp::Mul, cs, env, cur, fuel)
                        } else if h == kw_slash() {
                            spec_eval_arith(ArithOp::Div, cs, env, cur, fuel)
                        } else if h == kw_fn() {
                            (make_closure(cs, cur), env)
                        } else if h == kw_def() {
                            spec_eval_def(cs, env, cur, fuel)
                        } else {
                            spec_eval_call(cs, env, cur, fuel)
                        }
                    },
                    SpecTree::Node(_) => spec_eval_call(cs, env, cur, fuel),
                }
            }
        },
    }
}

/// The sequencing form: evaluates `cs[i..]` in order, returning the last
/// result; an empty body yields `Nil`.
pub open spec fn spec_eval_seq(cs: Seq<SpecTree>, i: int, env: Seq<SpecScope>, cur: int, fuel: nat)
    -> (Result<SpecValue, EvalError>, Seq<SpecScope>)
    decreases fuel, cs, cs.len() - i,
{
    if !(1 <= i < cs.len()) {
        (Ok(SpecValue::Nil), env)
    } else {
        let stepped = spec_eval(cs[i], env, cur, fuel);
        match stepped.0 {
            Err(e) => (Err(e), stepped.1),
            Ok(v) => if i == cs.len() - 1 {
                (Ok(v), stepped.1)
            } else {
                spec_eval_seq(cs, i + 1, stepped.1, cur, fuel)
            },
        }
    }
}

/// The conditional form `(if cond then else)`: the condition must yield
/// a boolean, which selects the branch to evaluate; the other branch is
/// not evaluated.
pub open spec fn spec_eval_if(cs: Seq<SpecTree>, env: Seq<SpecScope>, cur: int, fuel: nat) -> (
    Result<SpecValue, EvalError>,
    Seq<SpecScope>,
)
    decreases fuel, cs, 0int,
{
    if cs.len() != 4 {
        (Err(EvalError::MalformedForm), env)
    } else {
        let cond = spec_eval(cs[1], env, cur, fuel);
        match cond.0 {
            Err(e) => (Err(e), cond.1),
            Ok(SpecValue::Bool(true)) => spec_eval(cs[2], cond.1, cur, fuel),
            Ok(SpecValue::Bool(false)) => spec_eval(cs[3], cond.1, cur, fuel),
            Ok(_) => (Err(EvalError::TypeMismatch), cond.1),
        }
    }
}

/// The equality form `(= a b)`: evaluates both operands and compares
/// them structurally: same variant, same payload.
pub open spec fn spec_eval_equal(cs: Seq<SpecTree>, env: Seq<SpecScope>, cur: int, fuel: nat) -> (
    Result<SpecValue, EvalError>,
    Seq<SpecScope>,
)
    decreases fuel, cs, 0int,
{
    if cs.len() != 3 {
        (Err(EvalError::MalformedForm), env)
    } else {
        let first = spec_eval(cs[1], env, cur, fuel);
        match first.0 {
            Err(e) => (Err(e), first.1),
            Ok(a) => {
                let second = spec_eval(cs[2], first.1, cur, fuel);
                match second.0 {
                    Err(e) => (Err(e), second.1),
                    Ok(b) => (Ok(SpecValue::Bool(a == b)), second.1),
                }
            },
        }
    }
}

/// An arithmetic form: evaluates all operands left to right, then folds
/// them as [`arith_result`] says.
pub open spec fn spec_eval_arith(
    op: ArithOp,
    cs: Seq<SpecTree>,
    env: Seq<SpecScope>,
    cur: int,
    fuel: nat,
) -> (Result<SpecValue, EvalError>, Seq<SpecScope>)
    decreases fuel, cs, cs.len() + 1,
{
    if cs.len() == 0 {
        (Err(EvalError::MalformedForm), env)
    } else {
        let args = spec_eval_args(cs, 1, env, cur, fuel);
        match args.0 {
            Err(e) => (Err(e), args.1),
            Ok(vs) => (arith_result(op, vs), args.1),
        }
    }
}

/// The definition form `(def name expr)`: evaluates the expression in
/// the current environment, binds the result to the bare identifier in
/// the current scope alone, and yields `Nil`.
pub open spec fn spec_eval_def(cs: Seq<SpecTree>, env: Seq<SpecScope>, cur: int, fuel: nat) -> (
    Result<SpecValue, EvalError>,
    Seq<SpecScope>,
)
    decreases fuel, cs, 0int,
{
    if cs.len() != 3 {
        (Err(EvalError::MalformedForm), env)
    } else {
        match cs[1] {
            SpecTree::Leaf(name) => {
                let stepped = spec_eval(cs[2], env, cur, fuel);
                match stepped.0 {
                    Err(e) => (Err(e), stepped.1),
                    Ok(v) => (
                        Ok(SpecValue::Nil),
                        stepped.1.update(
                            cur,
                            SpecScope {
                                parent: stepped.1[cur].parent,
                                bindings: stepped.1[cur].bindings.insert(name, v),
                            },
                        ),
                    ),
                }
            },
            SpecTree::Node(_) => (Err(EvalError::MalformedForm), env),
        }
    }
}

/// The argument list of a call: evaluates `cs[i..]` left to right,
/// collecting the values, stopping at the first error.
pub open spec fn spec_eval_args(cs: Seq<SpecTree>, i: int, env: Seq<SpecScope>, cur: int, fuel: nat)
    -> (Result<Seq<SpecValue>, EvalError>, Seq<SpecScope>)
    decreases fuel, cs, cs.len() - i,
{
    if !(1 <= i < cs.len()) {
        (Ok(Seq::empty()), env)
    } else {
        let stepped = spec_eval(cs[i], env, cur, fuel);
        match stepped.0 {
            Err(e) => (Err(e), stepped.1),
            Ok(v) => {
                let rest = spec_eval_args(cs, i + 1, stepped.1, cur, fuel);
                match rest.0 {
                    Err(e) => (Err(e), rest.1),
                    Ok(vs) => (Ok(seq![v] + vs), rest.1),
                }
            },
        }
    }
}

/// A closure invocation: the head expression is evaluated first; it must
/// yield a closure whose parameter count matches the argument count; the
/// arguments are evaluated left to right; then the body is evaluated in
/// a fresh scope, parented to the closure's captured scope, with each
/// parameter bound to its argument. Each invocation consumes one unit of
/// fuel.
pub open spec fn spec_eval_call(cs: Seq<SpecTree>, env: Seq<SpecScope>, cur: int, fuel: nat) -> (
    Result<SpecValue, EvalError>,
    Seq<SpecScope>,
)
    decreases fuel, cs, cs.len() + 1,
{
    if cs.len() == 0 {
        (Err(EvalError::MalformedForm), env)
    } else {
        let head = spec_eval(cs[0], env, cur, fuel);
        match head.0 {
            Err(e) => (Err(e), head.1),
            Ok(SpecValue::Closure { params, body, env: captured }) => {
            if params.len() != cs.len() - 1 {
                (Err(EvalError::ArityMismatch), head.1)
            } else {
                let args = spec_eval_args(cs, 1, head.1, cur, fuel);
                match args.0 {
                    Err(e) => (Err(e), args.1),
                    Ok(vs) => if fuel == 0 {
                        (Err(EvalError::DepthExceeded), args.1)
                    } else {
                        let fresh = SpecScope {
                            parent: Some(captured),
                            bindings: bind_params(params, vs),
                        };
                        spec_eval(body, args.1.push(fresh), args.1.len() as int, (fuel - 1) as nat)
                    },
                }
            }
            },
            Ok(_) => (Err(EvalError::NotCallable), head.1),
        }
    }
}

/// Every value that [`bind_params`] installs is well formed when the
/// argument values are.
proof fn lemma_bind_params_wf(ps: Seq<Seq<char>>, vs: Seq<SpecValue>, n: int)
    requires
        forall|i: int| 0 <= i < vs.len() ==> wf_value(#[trigger] vs[i], n),
    ensures
        forall|k: Seq<char>|
            #[trigger] bind_params(ps, vs).contains_key(k) ==> wf_value(bind_params(ps, vs)[k], n),
    decreases ps.len(),
{
    if ps.len() != 0 && vs.len() != 0 {
        lemma_bind_params_wf(ps.drop_last(), vs.drop_last(), n);
        assert forall|i: int| 0 <= i < vs.drop_last().len() implies wf_value(
            #[trigger] vs.drop_last()[i],
            n,
        ) by {
            assert(vs.drop_last()[i] == vs[i]);
        }
        assert forall|k: Seq<char>| #[trigger] bind_params(ps, vs).contains_key(k) implies wf_value(
            bind_params(ps, vs)[k],
            n,
        ) by {
            if k == ps.last() {
                assert(bind_params(ps, vs)[k] == vs.last());
                assert(vs.last() == vs[vs.len() - 1]);
            } else {
                assert(bind_params(ps.drop_last(), vs.drop_last()).contains_key(k));
            }
        }
    }
}

/// Evaluation preserves well-formedness and is local: it can only grow
/// the environment, and the only existing scope whose bindings it can
/// change is the current one. In particular a `def` inside a function
/// call never alters a binding of the caller's scope or of any outer
/// scope. The result value, when there is one, is well formed.
pub proof fn lemma_eval_frame(t: SpecTree, env: Seq<SpecScope>, cur: int, fuel: nat)
    requires
        wf_env(env),
        0 <= cur < env.len(),
    ensures
        ({
            let (r, env2) = spec_eval(t, env, cur, fuel);
            &&& wf_env(env2)
            &&& env2.len() >= env.len()
            &&& forall|j: int| 0 <= j < env.len() && j != cur ==> env2[j] == env[j]
            &&& env2[cur].parent == env[cur].parent
            &&& (r is Ok ==> wf_value(r.unwrap(), env2.len() as int))
        }),
    decreases fuel, t, 0int,
{
    match t {
        SpecTree::Leaf(s) => {
            if !(s.len() > 0 && s[0] == '"') && !is_i64_token(s) && s != kw_true() && s
                != kw_false() {
                if lookup(env, cur, s) is Some {
                    crate::env::lemma_lookup_wf(env, cur, s);
                }
            }
        },
        SpecTree::Node(cs) => {
            if cs.len() == 0 {
            } else {
                match cs[0] {
                    SpecTree::Leaf(h) => {
                        if h == kw_do() || h == kw_begin() {
                            lemma_eval_frame_seq(cs, 1, env, cur, fuel);
                        } else if h == kw_if() {
                            lemma_eval_frame_if(cs, env, cur, fuel);
                        } else if h == kw_eq() {
                            lemma_eval_frame_equal(cs, env, cur, fuel);
                        } else if h == kw_plus() {
                            lemma_eval_frame_arith(ArithOp::Add, cs, env, cur, fuel);
                        } else if h == kw_minus() {
                            lemma_eval_frame_arith(ArithOp::Sub, cs, env, cur, fuel);
                        } else if h == kw_star() {
                            lemma_eval_frame_arith(ArithOp::Mul, cs, env, cur, fuel);
                        } else if h == kw_slash() {
                            lemma_eval_frame_arith(ArithOp::Div, cs, env, cur, fuel);
                        } else if h == kw_fn() {
                        } else if h == kw_def() {
                            lemma_eval_frame_def(cs, env, cur, fuel);
                        } else {
                            lemma_eval_frame_call(cs, env, cur, fuel);
                        }
                    },
                    SpecTree::Node(_) => {
                        lemma_eval_frame_call(cs, env, cur, fuel);
                    },
                }
            }
        },
    }
}

proof fn lemma_eval_frame_seq(cs: Seq<SpecTree>, i: int, env: Seq<SpecScope>, cur: int, fuel: nat)
    requires
        wf_env(env),
        0 <= cur < env.len(),
    ensures
        ({
            let (r, env2) = spec_eval_seq(cs, i, env, cur, fuel);
            &&& wf_env(env2)
            &&& env2.len() >= env.len()
            &&& forall|j: int| 0 <= j < env.len() && j != cur ==> env2[j] == env[j]
            &&& env2[cur].parent == env[cur].parent
            &&& (r is Ok ==> wf_value(r.unwrap(), env2.len() as int))
        }),
    decreases fuel, cs, cs.len() - i,
{
    if 1 <= i < cs.len() {
        lemma_eval_frame(cs[i], env, cur, fuel);
        let stepped = spec_eval(cs[i], env, cur, fuel);
        if stepped.0 is Ok && i < cs.len() - 1 {
            lemma_eval_frame_seq(cs, i + 1, stepped.1, cur, fuel);
        }
    }
}

proof fn lemma_eval_frame_if(cs: Seq<SpecTree>, env: Seq<SpecScope>, cur: int, fuel: nat)
    requires
        wf_env(env),
        0 <= cur < env.len(),
    ensures
        ({
            let (r, env2) = spec_eval_if(cs, env, cur, fuel);
            &&& wf_env(env2)
            &&& env2.len() >= env.len()
            &&& forall|j: int| 0 <= j < env.len() && j != cur ==> env2[j] == env[j]
            &&& env2[cur].parent == env[cur].parent
            &&& (r is Ok ==> wf_value(r.unwrap(), env2.len() as int))
        }),
    decreases fuel, cs, 0int,
{
    if cs.len() == 4 {
        lemma_eval_frame(cs[1], env, cur, fuel);
        let cond = spec_eval(cs[1], env, cur, fuel);
        match cond.0 {
            Ok(SpecValue::Bool(true)) => {
                lemma_eval_frame(cs[2], cond.1, cur, fuel);
            },
            Ok(SpecValue::Bool(false)) => {
                lemma_eval_frame(cs[3], cond.1, cur, fuel);
            },
            _ => {},
        }
    }
}

proof fn lemma_eval_frame_equal(cs: Seq<SpecTree>, env: Seq<SpecScope>, cur: int, fuel: nat)
    requires
        wf_env(env),
        0 <= cur < env.len(),
    ensures
        ({
            let (r, env2) = spec_eval_equal(cs, env, cur, fuel);
            &&& wf_env(env2)
            &&& env2.len() >= env.len()
            &&& forall|j: int| 0 <= j < env.len() && j != cur ==> env2[j] == env[j]
            &&& env2[cur].parent == env[cur].parent
            &&& (r is Ok ==> wf_value(r.unwrap(), env2.len() as int))
        }),
    decreases fuel, cs, 0int,
{
    if cs.len() == 3 {
        lemma_eval_frame(cs[1], env, cur, fuel);
        let first = spec_eval(cs[1], env, cur, fuel);
        if first.0 is Ok {
            lemma_eval_frame(cs[2], first.1, cur, fuel);
        }
    }
}

proof fn lemma_eval_frame_arith(
    op: ArithOp,
    cs: Seq<SpecTree>,
    env: Seq<SpecScope>,
    cur: int,
    fuel: nat,
)
    requires
        wf_env(env),
        0 <= cur < env.len(),
    ensures
        ({
            let (r, env2) = spec_eval_arith(op, cs, env, cur, fuel);
            &&& wf_env(env2)
            &&& env2.len() >= env.len()
            &&& forall|j: int| 0 <= j < env.len() && j != cur ==> env2[j] == env[j]
            &&& env2[cur].parent == env[cur].parent
            &&& (r is Ok ==> wf_value(r.unwrap(), env2.len() as int))
        }),
    decreases fuel, cs, cs.len() + 1,
{
    if cs.len() > 0 {
        lemma_eval_frame_args(cs, 1, env, cur, fuel);
    }
}

proof fn lemma_eval_frame_def(cs: Seq<SpecTree>, env: Seq<SpecScope>, cur: int, fuel: nat)
    requires
        wf_env(env),
        0 <= cur < env.len(),
    ensures
        ({
            let (r, env2) = spec_eval_def(cs, env, cur, fuel);
            &&& wf_env(env2)
            &&& env2.len() >= env.len()
            &&& forall|j: int| 0 <= j < env.len() && j != cur ==> env2[j] == env[j]
            &&& env2[cur].parent == env[cur].parent
            &&& (r is Ok ==> wf_value(r.unwrap(), env2.len() as int))
        }),
    decreases fuel, cs, 0int,
{
    if cs.len() == 3 {
        match cs[1] {
            SpecTree::Leaf(name) => {
                lemma_eval_frame(cs[2], env, cur, fuel);
                let stepped = spec_eval(cs[2], env, cur, fuel);
                match stepped.0 {
                    Ok(v) => {
                        let env3 = stepped.1.update(
                            cur,
                            SpecScope {
                                parent: stepped.1[cur].parent,
                                bindings: stepped.1[cur].bindings.insert(name, v),
                            },
                        );
                        assert forall|i: int| 0 <= i < env3.len() implies crate::env::wf_scope(
                            #[trigger] env3[i],
                            i,
                            env3.len() as int,
                        ) by {
                            assert(crate::env::wf_scope(stepped.1[i], i, stepped.1.len() as int));
                            if i == cur {
                                assert forall|nm: Seq<char>|
                                    #[trigger] env3[i].bindings.contains_key(nm) implies wf_value(
                                    env3[i].bindings[nm],
                                    env3.len() as int,
                                ) by {
                                    if nm != name {
                                        assert(stepped.1[i].bindings.contains_key(nm));
                                    }
                                }
                            }
                        }
                    },
                    Err(_) => {},
                }
            },
            SpecTree::Node(_) => {},
        }
    }
}

proof fn lemma_eval_frame_args(cs: Seq<SpecTree>, i: int, env: Seq<SpecScope>, cur: int, fuel: nat)
    requires
        wf_env(env),
        0 <= cur < env.len(),
    ensures
        ({
            let (r, env2) = spec_eval_args(cs, i, env, cur, fuel);
            &&& wf_env(env2)
            &&& env2.len() >= env.len()
            &&& forall|j: int| 0 <= j < env.len() && j != cur ==> env2[j] == env[j]
            &&& env2[cur].parent == env[cur].parent
            &&& (r is Ok ==> forall|k: int|
                0 <= k < r.unwrap().len() ==> wf_value(#[trigger] r.unwrap()[k], env2.len() as int))
        }),
    decreases fuel, cs, cs.len() - i,
{
    if 1 <= i < cs.len() {
        lemma_eval_frame(cs[i], env, cur, fuel);
        let stepped = spec_eval(cs[i], env, cur, fuel);
        match stepped.0 {
            Ok(v) => {
                lemma_eval_frame_args(cs, i + 1, stepped.1, cur, fuel);
                let rest = spec_eval_args(cs, i + 1, stepped.1, cur, fuel);
                match rest.0 {
                    Ok(vs) => {
                        assert forall|k: int| 0 <= k < (seq![v] + vs).len() implies wf_value(
                            #[trigger] (seq![v] + vs)[k],
                            rest.1.len() as int,
                        ) by {
                            if k == 0 {
                                assert((seq![v] + vs)[0] == v);
                            } else {
                                assert((seq![v] + vs)[k] == vs[k - 1]);
                            }
                        }
                    },
                    Err(_) => {},
                }
            },
            Err(_) => {},
        }
    }
}

proof fn lemma_eval_frame_call(cs: Seq<SpecTree>, env: Seq<SpecScope>, cur: int, fuel: nat)
    requires
        wf_env(env),
        0 <= cur < env.len(),
    ensures
        ({
            let (r, env2) = spec_eval_call(cs, env, cur, fuel);
            &&& wf_env(env2)
            &&& env2.len() >= env.len()
            &&& forall|j: int| 0 <= j < env.len() && j != cur ==> env2[j] == env[j]
            &&& env2[cur].parent == env[cur].parent
            &&& (r is Ok ==> wf_value(r.unwrap(), env2.len() as int))
        }),
    decreases fuel, cs, cs.len() + 1,
{
    if cs.len() > 0 {
        lemma_eval_frame(cs[0], env, cur, fuel);
        let head = spec_eval(cs[0], env, cur, fuel);
        match head.0 {
            Ok(SpecValue::Closure { params, body, env: captured }) => {
                if params.len() == cs.len() - 1 {
                    lemma_eval_frame_args(cs, 1, head.1, cur, fuel);
                    let args = spec_eval_args(cs, 1, head.1, cur, fuel);
                    match args.0 {
                        Ok(vs) => if fuel != 0 {
                            let fresh = SpecScope {
                                parent: Some(captured),
                                bindings: bind_params(params, vs),
                            };
                            let env3 = args.1.push(fresh);
                            lemma_bind_params_wf(params, vs, args.1.len() as int);
                            assert forall|k: Seq<char>|
                                #[trigger] fresh.bindings.contains_key(k) implies wf_value(
                                fresh.bindings[k],
                                env3.len() as int,
                            ) by {
                                assert(wf_value(bind_params(params, vs)[k], args.1.len() as int));
                            }
                            crate::env::lemma_wf_env_grow(args.1, seq![fresh]);
                            assert(args.1 + seq![fresh] =~= env3);
                            lemma_eval_frame(body, env3, args.1.len() as int, (fuel - 1) as nat);
                            let out = spec_eval(body, env3, args.1.len() as int, (fuel - 1) as nat);
                            assert forall|j: int| 0 <= j < env.len() && j != cur implies out.1[j]
                                == env[j] by {
                                assert(out.1[j] == env3[j]);
                                assert(env3[j] == args.1[j]);
                            }
                            assert(out.1[cur] == env3[cur]);
                            assert(env3[cur] == args.1[cur]);
                        } else {
                        },
                        Err(_) => {},
                    }
                }
            },
            _ => {},
        }
    }
}

/// The model of an evaluation result.
pub open spec fn res_view(r: Result<Value, EvalError>) -> Result<SpecValue, EvalError> {
    match r {
        Ok(v) => Ok(v@),
        Err(e) => Err(e),
    }
}

/// Converts one leaf token to a value, exactly as [`spec_to_value`]
/// says: a quoted token is a string, then an `i64` literal, then the
/// boolean literals, then a name looked up in the scope chain.
pub fn to_value(s: &str, env: &Env, cur: usize) -> (r: Result<Value, EvalError>)
    requires
        wf_env(env@),
        cur < env@.len(),
    ensures
        res_view(r) == spec_to_value(s@, env@, cur as int),
{
    let n = s.unicode_len();
    if n > 0 {
        if s.get_char(0) == '"' {
            return Ok(Value::Str(s.to_owned()));
        }
    }
    match parse_i64(s) {
        Some(v) => {
            return Ok(Value::Int(v));
        },
        None => {},
    }
    let t = str_eq(s, "true");
    proof {
        reveal_strlit("true");
        assert(("true")@ =~= kw_true());
    }
    if t {
        return Ok(Value::Bool(true));
    }
    let f = str_eq(s, "false");
    proof {
        reveal_strlit("false");
        assert(("false")@ =~= kw_false());
    }
    if f {
        return Ok(Value::Bool(false));
    }
    match env.get(cur, s) {
        Some(v) => Ok(v),
        None => Err(EvalError::UnboundName),
    }
}

/// Builds the closure the `fn` form yields, as [`make_closure`] says:
/// the parameter names, a copy of the body, and the current scope.
#[verifier::loop_isolation(false)]
pub fn function(cs: &Vec<Tree>, cur: usize) -> (r: Result<Value, EvalError>)
    ensures
        res_view(r) == make_closure(views_of(cs@), cur as int),
{
    let ghost kids = views_of(cs@);
    if cs.len() != 3 {
        return Err(EvalError::MalformedForm);
    }
    match &cs[1] {
        Tree::Leaf(_) => Err(EvalError::MalformedForm),
        Tree::Node(ps) => {
            let ghost pviews = views_of(ps@);
            proof {
                assert(kids[1] == cs@[1]@);
                assert(cs@[1]->Node_0 == *ps);
                assert(kids[1] == SpecTree::Node(pviews));
            }
            let n = ps.len();
            let mut params: Vec<String> = Vec::new();
            let mut i: usize = 0;
            while i < n
                invariant
                    n == ps@.len(),
                    0 <= i <= n,
                    params@.len() == i,
                    forall|j: int| 0 <= j < i ==> pviews[j] is Leaf,
                    forall|j: int| 0 <= j < i ==> params@[j]@ == pviews[j]->Leaf_0,
                decreases n - i,
            {
                proof {
                    assert(pviews[i as int] == ps@[i as int]@);
                }
                match &ps[i] {
                    Tree::Leaf(s) => {
                        params.push(s.clone());
                    },
                    Tree::Node(_) => {
                        proof {
                            assert(!all_leaves(pviews));
                        }
                        return Err(EvalError::MalformedForm);
                    },
                }
                i += 1;
            }
            let body = clone_tree(&cs[2]);
            let r = Value::Closure { params, body, env: cur };
            proof {
                assert forall|j: int| 0 <= j < pviews.len() implies pviews[j] is Leaf by {
                    assert(pviews[j] == ps@[j]@);
                }
                assert(all_leaves(pviews));
                assert(r@->Closure_params =~= leaf_names(pviews));
                assert(kids[2] == cs@[2]@);
            }
            Ok(r)
        },
    }
}

/// Folds evaluated operands as the arithmetic form demands, exactly as
/// [`arith_result`] says.
#[verifier::loop_isolation(false)]
pub fn arith(op: ArithOp, args: &Vec<Value>) -> (r: Result<Value, EvalError>)
    ensures
        res_view(r) == arith_result(op, crate::value::vals_of(args@)),
{
    let ghost vs = crate::value::vals_of(args@);
    let mut acc: i64;
    let mut i: usize;
    match op {
        ArithOp::Add => {
            acc = 0;
            i = 0;
        },
        ArithOp::Mul => {
            acc = 1;
            i = 0;
        },
        ArithOp::Sub | ArithOp::Div => {
            if args.len() == 0 {
                return Err(EvalError::MalformedForm);
            }
            match &args[0] {
                Value::Int(x) => {
                    acc = *x;
                    i = 1;
                },
                _ => {
                    return Err(EvalError::TypeMismatch);
                },
            }
        },
    }
    let ghost seed = acc;
    let ghost start = i as int;
    let n = args.len();
    while i < n
        invariant
            start <= i <= n,
            n == args@.len(),
            fold_arith(op, seed, vs, start) == fold_arith(op, acc, vs, i as int),
        decreases n - i,
    {
        proof {
            assert(vs[i as int] == args@[i as int]@);
        }
        match &args[i] {
            Value::Int(x) => {
                let next: i64 = match op {
                    ArithOp::Add => acc.wrapping_add(*x),
                    ArithOp::Sub => acc.wrapping_sub(*x),
                    ArithOp::Mul => acc.wrapping_mul(*x),
                    ArithOp::Div => {
                        if *x == 0 {
                            return Err(EvalError::DivisionByZero);
                        }
                        match acc.checked_div(*x) {
                            Some(q) => q,
                            None => i64::MIN,
                        }
                    },
                };
                proof {
                    assert(next == apply_op(op, acc, *x));
                }
                acc = next;
            },
            _ => {
                return Err(EvalError::TypeMismatch);
            },
        }
        i += 1;
    }
    Ok(Value::Int(acc))
}

/// The sequencing form `(do e...)` (or `(begin e...)`): evaluates the
/// body expressions in order, returning the last result, or `Nil` for an
/// empty body, exactly as [`spec_eval_seq`] says.
#[verifier::loop_isolation(false)]
fn begin_exp(cs: &Vec<Tree>, env: &mut Env, cur: usize, fuel: u64) -> (r: Result<Value, EvalError>)
    requires
        wf_env(old(env)@),
        cur < old(env)@.len(),
        cs@.len() >= 1,
    ensures
        ({
            let se = spec_eval_seq(views_of(cs@), 1, old(env)@, cur as int, fuel as nat);
            &&& res_view(r) == se.0
            &&& final(env)@ == se.1
        }),
    decreases fuel, views_of(cs@), cs@.len() + 1,
{
    let ghost kids = views_of(cs@);
    let n = cs.len();
    if n == 1 {
        return Ok(Value::Nil);
    }
    let mut i: usize = 1;
    loop
        invariant
            1 <= i < n,
            n == cs@.len(),
            wf_env(env@),
            cur < env@.len(),
            spec_eval_seq(kids, 1, old(env)@, cur as int, fuel as nat) == spec_eval_seq(
                kids,
                i as int,
                env@,
                cur as int,
                fuel as nat,
            ),
        decreases n - i,
    {
        proof {
            assert(kids[i as int] == cs@[i as int]@);
            lemma_eval_frame(kids[i as int], env@, cur as int, fuel as nat);
        }
        match eval_in(&cs[i], env, cur, fuel) {
            Err(e) => {
                return Err(e);
            },
            Ok(v) => {
                if i == n - 1 {
                    return Ok(v);
                }
                i += 1;
            },
        }
    }
}

/// The argument list of a call: evaluates `cs[1..]` left to right into a
/// vector, stopping at the first error, exactly as [`spec_eval_args`]
/// says.
#[verifier::loop_isolation(false)]
fn eval_args(cs: &Vec<Tree>, env: &mut Env, cur: usize, fuel: u64) -> (r: Result<
    Vec<Value>,
    EvalError,
>)
    requires
        wf_env(old(env)@),
        cur < old(env)@.len(),
        cs@.len() >= 1,
    ensures
        ({
            let sa = spec_eval_args(views_of(cs@), 1, old(env)@, cur as int, fuel as nat);
            &&& (match r {
                Ok(vs) => sa.0 == Ok::<Seq<SpecValue>, EvalError>(crate::value::vals_of(vs@))
                    && vs@.len() == cs@.len() - 1,
                Err(e) => sa.0 == Err::<Seq<SpecValue>, EvalError>(e),
            })
            &&& final(env)@ == sa.1
        }),
    decreases fuel, views_of(cs@), cs@.len() + 1,
{
    let ghost kids = views_of(cs@);
    let n = cs.len();
    let mut out: Vec<Value> = Vec::new();
    let mut i: usize = 1;
    while i < n
        invariant
            1 <= i <= n,
            n == cs@.len(),
            wf_env(env@),
            cur < env@.len(),
            out@.len() == i - 1,
            ({
                let rest = spec_eval_args(kids, i as int, env@, cur as int, fuel as nat);
                let full = spec_eval_args(kids, 1, old(env)@, cur as int, fuel as nat);
                match rest.0 {
                    Ok(vs2) => full.0 == Ok::<Seq<SpecValue>, EvalError>(
                        crate::value::vals_of(out@) + vs2,
                    ) && full.1 == rest.1,
                    Err(e) => full.0 == Err::<Seq<SpecValue>, EvalError>(e) && full.1 == rest.1,
                }
            }),
        decreases n - i,
    {
        proof {
            assert(kids[i as int] == cs@[i as int]@);
            lemma_eval_frame(kids[i as int], env@, cur as int, fuel as nat);
        }
        let ghost out_prev = out@;
        match eval_in(&cs[i], env, cur, fuel) {
            Err(e) => {
                return Err(e);
            },
            Ok(v) => {
                out.push(v);
                proof {
                    assert(crate::value::vals_of(out@) =~= crate::value::vals_of(out_prev).push(
                        out@[out@.len() - 1]@,
                    ));
                    let rest = spec_eval_args(kids, i + 1, env@, cur as int, fuel as nat);
                    match rest.0 {
                        Ok(vs3) => {
                            assert(crate::value::vals_of(out@) + vs3 =~= crate::value::vals_of(
                                out_prev,
                            ) + (seq![out@[out@.len() - 1]@] + vs3));
                        },
                        Err(_) => {},
                    }
                }
                i += 1;
            },
        }
    }
    proof {
        assert(crate::value::vals_of(out@) + Seq::<SpecValue>::empty() =~= crate::value::vals_of(
            out@,
        ));
    }
    Ok(out)
}

/// A closure invocation `(head args...)`: the head is evaluated, its
/// arity checked, the arguments evaluated, and the body run in a fresh
/// scope parented to the closure's captured scope, exactly as
/// [`spec_eval_call`] says.
#[verifier::loop_isolation(false)]
fn invoke(cs: &Vec<Tree>, env: &mut Env, cur: usize, fuel: u64) -> (r: Result<Value, EvalError>)
    requires
        wf_env(old(env)@),
        cur < old(env)@.len(),
        cs@.len() >= 1,
    ensures
        ({
            let sc = spec_eval_call(views_of(cs@), old(env)@, cur as int, fuel as nat);
            &&& res_view(r) == sc.0
            &&& final(env)@ == sc.1
        }),
    decreases fuel, views_of(cs@), cs@.len() + 2,
{
    let ghost kids = views_of(cs@);
    let ghost env0 = env@;
    proof {
        assert(kids[0] == cs@[0]@);
        lemma_eval_frame(kids[0], env@, cur as int, fuel as nat);
    }
    let hv = match eval_in(&cs[0], env, cur, fuel) {
        Ok(v) => v,
        Err(e) => {
            return Err(e);
        },
    };
    let ghost env1 = env@;
    let ghost hview = hv@;
    match hv {
        Value::Closure { params, body, env: captured } => {
            let ghost pviews = hview->Closure_params;
            if params.len() != cs.len() - 1 {
                return Err(EvalError::ArityMismatch);
            }
            proof {
                lemma_eval_frame_args(kids, 1, env1, cur as int, fuel as nat);
            }
            let vs = match eval_args(cs, env, cur, fuel) {
                Ok(vs) => vs,
                Err(e) => {
                    return Err(e);
                },
            };
            let ghost env2 = env@;
            let ghost vviews = crate::value::vals_of(vs@);
            if fuel == 0 {
                return Err(EvalError::DepthExceeded);
            }
            proof {
                assert(wf_value(hview, env1.len() as int));
                assert(0 <= captured < env1.len());
                assert(env2.len() >= env1.len());
            }
            let ns = env.child_scope(captured);
            let np = params.len();
            let mut k: usize = 0;
            while k < np
                invariant
                    0 <= k <= np,
                    np == params@.len() == vs@.len(),
                    ns == env2.len(),
                    ns < env@.len(),
                    env@ == env2.push(
                        SpecScope {
                            parent: Some(captured as int),
                            bindings: bind_params(
                                pviews.subrange(0, k as int),
                                vviews.subrange(0, k as int),
                            ),
                        },
                    ),
                decreases np - k,
            {
                let ghost env_k = env@;
                let bound = clone_value(&vs[k]);
                env.insert(ns, params[k].as_str(), bound);
                proof {
                    assert(pviews.subrange(0, k as int + 1).drop_last() =~= pviews.subrange(
                        0,
                        k as int,
                    ));
                    assert(vviews.subrange(0, k as int + 1).drop_last() =~= vviews.subrange(
                        0,
                        k as int,
                    ));
                    assert(pviews.subrange(0, k as int + 1).last() == pviews[k as int]);
                    assert(vviews.subrange(0, k as int + 1).last() == vviews[k as int]);
                    assert(pviews[k as int] == params@[k as int]@);
                    assert(vviews[k as int] == vs@[k as int]@);
                    assert(env@ =~= env2.push(
                        SpecScope {
                            parent: Some(captured as int),
                            bindings: bind_params(
                                pviews.subrange(0, k as int + 1),
                                vviews.subrange(0, k as int + 1),
                            ),
                        },
                    ));
                }
                k += 1;
            }
            let ghost fresh = SpecScope {
                parent: Some(captured as int),
                bindings: bind_params(pviews, vviews),
            };
            proof {
                assert(pviews.subrange(0, np as int) =~= pviews);
                assert(vviews.subrange(0, np as int) =~= vviews);
                assert(env@ == env2.push(fresh));
                lemma_bind_params_wf(pviews, vviews, env2.len() as int);
                assert forall|key: Seq<char>| #[trigger]
                    fresh.bindings.contains_key(key) implies wf_value(
                    fresh.bindings[key],
                    env@.len() as int,
                ) by {
                    assert(wf_value(bind_params(pviews, vviews)[key], env2.len() as int));
                }
                crate::env::lemma_wf_env_grow(env2, seq![fresh]);
                assert(env2 + seq![fresh] =~= env@);
                assert(body@ == hview->Closure_body);
            }
            eval_in(&body, env, ns, fuel - 1)
        },
        _ => Err(EvalError::NotCallable),
    }
}

/// Evaluates one tree in scope `cur`, returning exactly what
/// [`spec_eval`] says and leaving the environment exactly as it says.
#[verifier::loop_isolation(false)]
pub fn eval_in(t: &Tree, env: &mut Env, cur: usize, fuel: u64) -> (r: Result<Value, EvalError>)
    requires
        wf_env(old(env)@),
        cur < old(env)@.len(),
    ensures
        ({
            let se = spec_eval(t@, old(env)@, cur as int, fuel as nat);
            &&& res_view(r) == se.0
            &&& final(env)@ == se.1
            &&& wf_env(final(env)@)
            &&& old(env)@.len() <= final(env)@.len()
            &&& cur < final(env)@.len()
        }),
    decreases fuel, t@, 1int,
{
    proof {
        lemma_eval_frame(t@, old(env)@, cur as int, fuel as nat);
    }
    match t {
        Tree::Leaf(s) => to_value(s.as_str(), env, cur),
        Tree::Node(cs) => {
            let ghost kids = views_of(cs@);
            proof {
                assert(t@ == SpecTree::Node(kids));
            }
            if cs.len() == 0 {
                return Err(EvalError::MalformedForm);
            }
            proof {
                assert(kids[0] == cs@[0]@);
            }
            match &cs[0] {
                Tree::Node(_) => invoke(cs, env, cur, fuel),
                Tree::Leaf(h) => {
                    let hs = h.as_str();
                    let is_do = str_eq(hs, "do");
                    let is_begin = str_eq(hs, "begin");
                    proof {
                        reveal_strlit("do");
                        reveal_strlit("begin");
                        assert(("do")@ =~= kw_do());
                        assert(("begin")@ =~= kw_begin());
                    }
                    if is_do || is_begin {
                        return begin_exp(cs, env, cur, fuel);
                    }
                    let is_if = str_eq(hs, "if");
                    proof {
                        reveal_strlit("if");
                        assert(("if")@ =~= kw_if());
                    }
                    if is_if {
                        if cs.len() != 4 {
                            return Err(EvalError::MalformedForm);
                        }
                        proof {
                            assert(kids[1] == cs@[1]@);
                            assert(kids[2] == cs@[2]@);
                            assert(kids[3] == cs@[3]@);
                            lemma_eval_frame(kids[1], env@, cur as int, fuel as nat);
                        }
                        let c = match eval_in(&cs[1], env, cur, fuel) {
                            Ok(v) => v,
                            Err(e) => {
                                return Err(e);
                            },
                        };
                        return match c {
                            Value::Bool(b) => {
                                if b {
                                    eval_in(&cs[2], env, cur, fuel)
                                } else {
                                    eval_in(&cs[3], env, cur, fuel)
                                }
                            },
                            _ => Err(EvalError::TypeMismatch),
                        };
                    }
                    let is_eq = str_eq(hs, "=");
                    proof {
                        reveal_strlit("=");
                        assert(("=")@ =~= kw_eq());
                    }
                    if is_eq {
                        if cs.len() != 3 {
                            return Err(EvalError::MalformedForm);
                        }
                        proof {
                            assert(kids[1] == cs@[1]@);
                            assert(kids[2] == cs@[2]@);
                            lemma_eval_frame(kids[1], env@, cur as int, fuel as nat);
                        }
                        let a = match eval_in(&cs[1], env, cur, fuel) {
                            Ok(v) => v,
                            Err(e) => {
                                return Err(e);
                            },
                        };
                        proof {
                            lemma_eval_frame(kids[2], env@, cur as int, fuel as nat);
                        }
                        let b = match eval_in(&cs[2], env, cur, fuel) {
                            Ok(v) => v,
                            Err(e) => {
                                return Err(e);
                            },
                        };
                        return Ok(Value::Bool(value_eq(&a, &b)));
                    }
                    let is_plus = str_eq(hs, "+");
                    let is_minus = str_eq(hs, "-");
                    let is_star = str_eq(hs, "*");
                    let is_slash = str_eq(hs, "/");
                    proof {
                        reveal_strlit("+");
                        reveal_strlit("-");
                        reveal_strlit("*");
                        reveal_strlit("/");
                        assert(("+")@ =~= kw_plus());
                        assert(("-")@ =~= kw_minus());
                        assert(("*")@ =~= kw_star());
                        assert(("/")@ =~= kw_slash());
                    }
                    if is_plus || is_minus || is_star || is_slash {
                        let op = if is_plus {
                            ArithOp::Add
                        } else if is_minus {
                            ArithOp::Sub
                        } else if is_star {
                            ArithOp::Mul
                        } else {
                            ArithOp::Div
                        };
                        let vs = match eval_args(cs, env, cur, fuel) {
                            Ok(vs) => vs,
                            Err(e) => {
                                return Err(e);
                            },
                        };
                        return arith(op, &vs);
                    }
                    let is_fn = str_eq(hs, "fn");
                    proof {
                        reveal_strlit("fn");
                        assert(("fn")@ =~= kw_fn());
                    }
                    if is_fn {
                        return function(cs, cur);
                    }
                    let is_def = str_eq(hs, "def");
                    proof {
                        reveal_strlit("def");
                        assert(("def")@ =~= kw_def());
                    }
                    if is_def {
                        if cs.len() != 3 {
                            return Err(EvalError::MalformedForm);
                        }
                        proof {
                            assert(kids[1] == cs@[1]@);
                            assert(kids[2] == cs@[2]@);
                        }
                        return match &cs[1] {
                            Tree::Leaf(name) => {
                                proof {
                                    lemma_eval_frame(kids[2], env@, cur as int, fuel as nat);
                                }
                                let v = match eval_in(&cs[2], env, cur, fuel) {
                                    Ok(v) => v,
                                    Err(e) => {
                                        return Err(e);
                                    },
                                };
                                env.insert(cur, name.as_str(), v);
                                Ok(Value::Nil)
                            },
                            Tree::Node(_) => Err(EvalError::MalformedForm),
                        };
                    }
                    invoke(cs, env, cur, fuel)
                },
            }
        },
    }
}

/// Evaluates a tree in the global scope. `fuel` bounds the nesting of
/// closure invocations. The result and the bindings the evaluation
/// leaves behind are exactly what [`spec_eval`] says.
pub fn eval(t: &Tree, env: &mut Env, fuel: u64) -> (r: Result<Value, EvalError>)
    requires
        wf_env(old(env)@),
        1 <= old(env)@.len(),
    ensures
        ({
            let se = spec_eval(t@, old(env)@, 0, fuel as nat);
            &&& res_view(r) == se.0
            &&& final(env)@ == se.1
            &&& wf_env(final(env)@)
            &&& 1 <= final(env)@.len()
        }),
{
    eval_in(t, env, 0, fuel)
}

} // verus!
