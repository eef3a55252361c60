//! Laws of the language, proved against the semantics: what the
//! arithmetic forms compute, what a definition binds, what invoking a
//! closure does, and when an invocation is rejected.

use vstd::prelude::*;

use crate::env::{lookup, SpecScope};
use crate::eval::{
    bind_params, div_wrap, is_special, kw_def, kw_plus, spec_eval, spec_eval_args, spec_to_value,
    ArithOp, EvalError,
};
use crate::tree::SpecTree;
use crate::value::{int_token_value, is_i64_token, SpecValue};

verus! {

/// A token that is read as a name: not a string literal, not an integer
/// literal, not a boolean literal.
pub open spec fn is_identifier(s: Seq<char>) -> bool {
    &&& !(s.len() > 0 && s[0] == '"')
    &&& !is_i64_token(s)
    &&& s != crate::eval::kw_true()
    &&& s != crate::eval::kw_false()
}

/// The operator token of each arithmetic form.
pub open spec fn op_token(op: ArithOp) -> Seq<char> {
    match op {
        ArithOp::Add => crate::eval::kw_plus(),
        ArithOp::Sub => crate::eval::kw_minus(),
        ArithOp::Mul => crate::eval::kw_star(),
        ArithOp::Div => crate::eval::kw_slash(),
    }
}

/// An integer-literal leaf evaluates to its value and leaves the
/// environment alone.
proof fn lemma_literal_leaf(s: Seq<char>, a: i64, env: Seq<SpecScope>, cur: int, fuel: nat)
    requires
        int_token_value(s) == Some(a as int),
    ensures
        spec_eval(SpecTree::Leaf(s), env, cur, fuel) == (
            Ok::<SpecValue, EvalError>(SpecValue::Int(a)),
            env,
        ),
{
    assert(is_i64_token(s));
    assert(s.len() > 0);
    assert(s[0] == '-' || s[0] == '+' || crate::value::is_digit(s[0]));
    assert(s[0] != '"');
}

/// Evaluating the two-literal operand list `(a b)` yields exactly the
/// two integers and leaves the environment alone.
proof fn lemma_two_literal_args(
    op: ArithOp,
    sa: Seq<char>,
    sb: Seq<char>,
    a: i64,
    b: i64,
    env: Seq<SpecScope>,
    cur: int,
    fuel: nat,
)
    requires
        int_token_value(sa) == Some(a as int),
        int_token_value(sb) == Some(b as int),
    ensures
        spec_eval_args(
            seq![SpecTree::Leaf(op_token(op)), SpecTree::Leaf(sa), SpecTree::Leaf(sb)],
            1,
            env,
            cur,
            fuel,
        ) == (Ok::<Seq<SpecValue>, EvalError>(seq![SpecValue::Int(a), SpecValue::Int(b)]), env),
{
    let cs = seq![SpecTree::Leaf(op_token(op)), SpecTree::Leaf(sa), SpecTree::Leaf(sb)];
    lemma_literal_leaf(sa, a, env, cur, fuel);
    lemma_literal_leaf(sb, b, env, cur, fuel);
    assert(spec_eval_args(cs, 3, env, cur, fuel) == (
        Ok::<Seq<SpecValue>, EvalError>(Seq::empty()),
        env,
    ));
    assert(seq![SpecValue::Int(b)] + Seq::<SpecValue>::empty() =~= seq![SpecValue::Int(b)]);
    assert(spec_eval_args(cs, 2, env, cur, fuel) == (
        Ok::<Seq<SpecValue>, EvalError>(seq![SpecValue::Int(b)]),
        env,
    ));
    assert(seq![SpecValue::Int(a)] + seq![SpecValue::Int(b)] =~= seq![
        SpecValue::Int(a),
        SpecValue::Int(b),
    ]);
}

/// For all integers `a`, `b` written as literals: `(+ a b)` evaluates to
/// their sum with wrapping fixed-width semantics, hence to exactly
/// `a + b` whenever that sum fits in an `i64`. The environment is left
/// alone.
pub proof fn lemma_plus_form(
    sa: Seq<char>,
    sb: Seq<char>,
    a: i64,
    b: i64,
    env: Seq<SpecScope>,
    cur: int,
    fuel: nat,
)
    requires
        int_token_value(sa) == Some(a as int),
        int_token_value(sb) == Some(b as int),
    ensures
        spec_eval(
            SpecTree::Node(seq![SpecTree::Leaf(kw_plus()), SpecTree::Leaf(sa), SpecTree::Leaf(sb)]),
            env,
            cur,
            fuel,
        ) == (
            Ok::<SpecValue, EvalError>(
                SpecValue::Int(vstd::wrapping::i64_specs::wrapping_add(a, b)),
            ),
            env,
        ),
        i64::MIN <= a + b <= i64::MAX ==> vstd::wrapping::i64_specs::wrapping_add(a, b) == a + b,
{
    crate::eval::lemma_kw_facts();
    lemma_two_literal_args(ArithOp::Add, sa, sb, a, b, env, cur, fuel);
    let cs = seq![SpecTree::Leaf(kw_plus()), SpecTree::Leaf(sa), SpecTree::Leaf(sb)];
    let vs = seq![SpecValue::Int(a), SpecValue::Int(b)];
    reveal_with_fuel(crate::eval::fold_arith, 4);
    assert(op_token(ArithOp::Add) == kw_plus());
    assert(cs[0] == SpecTree::Leaf(kw_plus()));
    assert(spec_eval_args(cs, 1, env, cur, fuel) == (
        Ok::<Seq<SpecValue>, EvalError>(vs),
        env,
    ));
    assert(spec_eval(SpecTree::Node(cs), env, cur, fuel) == crate::eval::spec_eval_arith(
        ArithOp::Add,
        cs,
        env,
        cur,
        fuel,
    ));
    assert(crate::eval::spec_eval_arith(ArithOp::Add, cs, env, cur, fuel) == (
        crate::eval::arith_result(ArithOp::Add, vs),
        env,
    ));
    assert(crate::eval::fold_arith(ArithOp::Add, 0, vs, 0) == Ok::<i64, EvalError>(
        vstd::wrapping::i64_specs::wrapping_add(vstd::wrapping::i64_specs::wrapping_add(0, a), b),
    ));
    assert(vstd::wrapping::i64_specs::wrapping_add(0, a) == a);
}

/// For all integers `a`, `b` written as literals: `(- a b)` evaluates to
/// their difference, seeded from the first operand, with wrapping
/// fixed-width semantics, hence to exactly `a - b` whenever that fits.
pub proof fn lemma_minus_form(
    sa: Seq<char>,
    sb: Seq<char>,
    a: i64,
    b: i64,
    env: Seq<SpecScope>,
    cur: int,
    fuel: nat,
)
    requires
        int_token_value(sa) == Some(a as int),
        int_token_value(sb) == Some(b as int),
    ensures
        spec_eval(
            SpecTree::Node(
                seq![
                    SpecTree::Leaf(crate::eval::kw_minus()),
                    SpecTree::Leaf(sa),
                    SpecTree::Leaf(sb),
                ],
            ),
            env,
            cur,
            fuel,
        ) == (
            Ok::<SpecValue, EvalError>(
                SpecValue::Int(vstd::wrapping::i64_specs::wrapping_sub(a, b)),
            ),
            env,
        ),
        i64::MIN <= a - b <= i64::MAX ==> vstd::wrapping::i64_specs::wrapping_sub(a, b) == a - b,
{
    crate::eval::lemma_kw_facts();
    lemma_two_literal_args(ArithOp::Sub, sa, sb, a, b, env, cur, fuel);
    let vs = seq![SpecValue::Int(a), SpecValue::Int(b)];
    reveal_with_fuel(crate::eval::fold_arith, 4);
    assert(crate::eval::fold_arith(ArithOp::Sub, a, vs, 1) == Ok::<i64, EvalError>(
        vstd::wrapping::i64_specs::wrapping_sub(a, b),
    ));
}

/// For all integers `a`, `b` written as literals: `(* a b)` evaluates to
/// their product, folded from the identity 1, with wrapping fixed-width
/// semantics, hence to exactly `a * b` whenever that fits.
pub proof fn lemma_times_form(
    sa: Seq<char>,
    sb: Seq<char>,
    a: i64,
    b: i64,
    env: Seq<SpecScope>,
    cur: int,
    fuel: nat,
)
    requires
        int_token_value(sa) == Some(a as int),
        int_token_value(sb) == Some(b as int),
    ensures
        spec_eval(
            SpecTree::Node(
                seq![
                    SpecTree::Leaf(crate::eval::kw_star()),
                    SpecTree::Leaf(sa),
                    SpecTree::Leaf(sb),
                ],
            ),
            env,
            cur,
            fuel,
        ) == (
            Ok::<SpecValue, EvalError>(
                SpecValue::Int(vstd::wrapping::i64_specs::wrapping_mul(a, b)),
            ),
            env,
        ),
        i64::MIN <= a * b <= i64::MAX ==> vstd::wrapping::i64_specs::wrapping_mul(a, b) == a * b,
{
    crate::eval::lemma_kw_facts();
    lemma_two_literal_args(ArithOp::Mul, sa, sb, a, b, env, cur, fuel);
    let vs = seq![SpecValue::Int(a), SpecValue::Int(b)];
    reveal_with_fuel(crate::eval::fold_arith, 4);
    assert(vstd::wrapping::i64_specs::wrapping_mul(1, a) == a) by {
        assert(1 * (a as int) == a as int) by (nonlinear_arith);
    }
    assert(crate::eval::fold_arith(ArithOp::Mul, 1, vs, 0) == Ok::<i64, EvalError>(
        vstd::wrapping::i64_specs::wrapping_mul(vstd::wrapping::i64_specs::wrapping_mul(1, a), b),
    ));
    if i64::MIN <= a * b <= i64::MAX {
        assert(vstd::wrapping::i64_specs::wrapping_mul(a, b) == a * b) by {
            assert((a as int) * (b as int) % 0x1_0000_0000_0000_0000 == ((a as int) * (
            b as int) + 0x1_0000_0000_0000_0000) % 0x1_0000_0000_0000_0000);
        }
    }
}

/// For all integers `a`, `b` written as literals: `(/ a b)` evaluates to
/// the truncated quotient when `b` is not zero, and fails with
/// `DivisionByZero` when it is. The environment is left alone.
pub proof fn lemma_div_form(
    sa: Seq<char>,
    sb: Seq<char>,
    a: i64,
    b: i64,
    env: Seq<SpecScope>,
    cur: int,
    fuel: nat,
)
    requires
        int_token_value(sa) == Some(a as int),
        int_token_value(sb) == Some(b as int),
    ensures
        b != 0 ==> spec_eval(
            SpecTree::Node(
                seq![
                    SpecTree::Leaf(crate::eval::kw_slash()),
                    SpecTree::Leaf(sa),
                    SpecTree::Leaf(sb),
                ],
            ),
            env,
            cur,
            fuel,
        ) == (Ok::<SpecValue, EvalError>(SpecValue::Int(div_wrap(a, b))), env),
        b == 0 ==> spec_eval(
            SpecTree::Node(
                seq![
                    SpecTree::Leaf(crate::eval::kw_slash()),
                    SpecTree::Leaf(sa),
                    SpecTree::Leaf(sb),
                ],
            ),
            env,
            cur,
            fuel,
        ) == (Err::<SpecValue, EvalError>(EvalError::DivisionByZero), env),
{
    crate::eval::lemma_kw_facts();
    lemma_two_literal_args(ArithOp::Div, sa, sb, a, b, env, cur, fuel);
    reveal_with_fuel(crate::eval::fold_arith, 4);
    let vs = seq![SpecValue::Int(a), SpecValue::Int(b)];
    if b != 0 {
        assert(crate::eval::fold_arith(ArithOp::Div, a, vs, 1) == Ok::<i64, EvalError>(
            div_wrap(a, b),
        ));
    }
}

/// `(def x V)` evaluates `V`, binds its value to `x` in the current
/// scope alone, and yields `Nil`; evaluating the leaf `x` afterwards in
/// the same scope yields that very value, for any identifier `x`.
pub proof fn lemma_def_binds(
    x: Seq<char>,
    vt: SpecTree,
    env: Seq<SpecScope>,
    cur: int,
    fuel: nat,
    fuel2: nat,
)
    requires
        0 <= cur < env.len(),
        !is_special(x),
        spec_eval(vt, env, cur, fuel).0 is Ok,
    ensures
        ({
            let (r, env1) = spec_eval(vt, env, cur, fuel);
            let v = r.unwrap();
            let env2 = env1.update(
                cur,
                SpecScope {
                    parent: env1[cur].parent,
                    bindings: env1[cur].bindings.insert(x, v),
                },
            );
            &&& spec_eval(
                SpecTree::Node(seq![SpecTree::Leaf(kw_def()), SpecTree::Leaf(x), vt]),
                env,
                cur,
                fuel,
            ) == (Ok::<SpecValue, EvalError>(SpecValue::Nil), env2)
            &&& (is_identifier(x) && 0 <= cur < env1.len() ==> spec_eval(
                SpecTree::Leaf(x),
                env2,
                cur,
                fuel2,
            ) == (Ok::<SpecValue, EvalError>(v), env2))
        }),
{
    crate::eval::lemma_kw_facts();
    let cs = seq![SpecTree::Leaf(kw_def()), SpecTree::Leaf(x), vt];
    let (r, env1) = spec_eval(vt, env, cur, fuel);
    let v = r.unwrap();
    let env2 = env1.update(
        cur,
        SpecScope { parent: env1[cur].parent, bindings: env1[cur].bindings.insert(x, v) },
    );
    assert(crate::eval::spec_eval_def(cs, env, cur, fuel) == (
        Ok::<SpecValue, EvalError>(SpecValue::Nil),
        env2,
    ));
    if is_identifier(x) && 0 <= cur < env1.len() {
        assert(env2[cur].bindings.contains_key(x));
        assert(lookup(env2, cur, x) == Some(v));
        assert(spec_to_value(x, env2, cur) == Ok::<SpecValue, EvalError>(v));
    }
}

/// A `do` with an empty body evaluates to `Nil` and leaves the
/// environment alone.
pub proof fn lemma_empty_do(env: Seq<SpecScope>, cur: int, fuel: nat)
    ensures
        spec_eval(SpecTree::Node(seq![SpecTree::Leaf(crate::eval::kw_do())]), env, cur, fuel) == (
            Ok::<SpecValue, EvalError>(SpecValue::Nil),
            env,
        ),
{
}

/// The `fn` form `(fn (px py) body)` evaluates to exactly the closure
/// that captures the current scope, without evaluating the body, and
/// leaves the environment alone.
pub proof fn lemma_fn_form_builds_closure(
    px: Seq<char>,
    py: Seq<char>,
    body: SpecTree,
    env: Seq<SpecScope>,
    cur: int,
    fuel: nat,
)
    ensures
        spec_eval(
            SpecTree::Node(
                seq![
                    SpecTree::Leaf(crate::eval::kw_fn()),
                    SpecTree::Node(seq![SpecTree::Leaf(px), SpecTree::Leaf(py)]),
                    body,
                ],
            ),
            env,
            cur,
            fuel,
        ) == (
            Ok::<SpecValue, EvalError>(
                SpecValue::Closure { params: seq![px, py], body: body, env: cur },
            ),
            env,
        ),
{
    crate::eval::lemma_kw_facts();
    let ps = seq![SpecTree::Leaf(px), SpecTree::Leaf(py)];
    let cs = seq![SpecTree::Leaf(crate::eval::kw_fn()), SpecTree::Node(ps), body];
    assert(crate::eval::all_leaves(ps));
    assert(crate::eval::leaf_names(ps) =~= seq![px, py]);
    assert(crate::eval::make_closure(cs, cur) == Ok::<SpecValue, EvalError>(
        SpecValue::Closure { params: seq![px, py], body: body, env: cur },
    ));
}

/// Invoking a closure bound to `f` with the wrong number of arguments
/// fails with `ArityMismatch`, before any argument is evaluated.
pub proof fn lemma_call_arity_mismatch(
    cs: Seq<SpecTree>,
    f: Seq<char>,
    env: Seq<SpecScope>,
    cur: int,
    fuel: nat,
)
    requires
        cs.len() >= 1,
        cs[0] == SpecTree::Leaf(f),
        !is_special(f),
        is_identifier(f),
        lookup(env, cur, f) is Some,
        lookup(env, cur, f).unwrap() is Closure,
        lookup(env, cur, f).unwrap()->Closure_params.len() != cs.len() - 1,
    ensures
        spec_eval(SpecTree::Node(cs), env, cur, fuel) == (
            Err::<SpecValue, EvalError>(EvalError::ArityMismatch),
            env,
        ),
{
    assert(spec_to_value(f, env, cur) == Ok::<SpecValue, EvalError>(lookup(env, cur, f).unwrap()));
    assert(spec_eval(cs[0], env, cur, fuel) == (
        Ok::<SpecValue, EvalError>(lookup(env, cur, f).unwrap()),
        env,
    ));
}

/// Invoking the addition closure `(fn (px py) (+ px py))`, bound to the
/// name `f`, on two expressions that evaluate to integers returns their
/// (wrapping) sum: the body runs in a fresh scope, parented to the
/// closure's captured scope, where the parameters name the two argument
/// values.
pub proof fn lemma_call_add_closure(
    f: Seq<char>,
    px: Seq<char>,
    py: Seq<char>,
    cenv: int,
    ta: SpecTree,
    tb: SpecTree,
    a: i64,
    b: i64,
    env: Seq<SpecScope>,
    cur: int,
    fuel: nat,
)
    requires
        fuel >= 1,
        !is_special(f),
        is_identifier(f),
        px != py,
        is_identifier(px),
        is_identifier(py),
        lookup(env, cur, f) == Some(
            SpecValue::Closure {
                params: seq![px, py],
                body: SpecTree::Node(
                    seq![SpecTree::Leaf(kw_plus()), SpecTree::Leaf(px), SpecTree::Leaf(py)],
                ),
                env: cenv,
            },
        ),
        spec_eval(ta, env, cur, fuel).0 == Ok::<SpecValue, EvalError>(SpecValue::Int(a)),
        spec_eval(tb, spec_eval(ta, env, cur, fuel).1, cur, fuel).0 == Ok::<SpecValue, EvalError>(
            SpecValue::Int(b),
        ),
    ensures
        ({
            let env1 = spec_eval(ta, env, cur, fuel).1;
            let env2 = spec_eval(tb, env1, cur, fuel).1;
            let fresh = SpecScope {
                parent: Some(cenv),
                bindings: bind_params(seq![px, py], seq![SpecValue::Int(a), SpecValue::Int(b)]),
            };
            spec_eval(SpecTree::Node(seq![SpecTree::Leaf(f), ta, tb]), env, cur, fuel) == (
                Ok::<SpecValue, EvalError>(
                    SpecValue::Int(vstd::wrapping::i64_specs::wrapping_add(a, b)),
                ),
                env2.push(fresh),
            )
        }),
{
    crate::eval::lemma_kw_facts();
    let cs = seq![SpecTree::Leaf(f), ta, tb];
    let clo = lookup(env, cur, f).unwrap();
    let env1 = spec_eval(ta, env, cur, fuel).1;
    let env2 = spec_eval(tb, env1, cur, fuel).1;
    assert(spec_to_value(f, env, cur) == Ok::<SpecValue, EvalError>(clo));
    assert(spec_eval(cs[0], env, cur, fuel) == (Ok::<SpecValue, EvalError>(clo), env));
    assert(cs[1] == ta && cs[2] == tb);
    assert(spec_eval_args(cs, 3, env2, cur, fuel) == (
        Ok::<Seq<SpecValue>, EvalError>(Seq::empty()),
        env2,
    ));
    assert(seq![SpecValue::Int(b)] + Seq::<SpecValue>::empty() =~= seq![SpecValue::Int(b)]);
    assert(seq![SpecValue::Int(a)] + seq![SpecValue::Int(b)] =~= seq![
        SpecValue::Int(a),
        SpecValue::Int(b),
    ]);
    assert(spec_eval_args(cs, 2, env1, cur, fuel) == (
        Ok::<Seq<SpecValue>, EvalError>(seq![SpecValue::Int(b)]),
        env2,
    ));
    assert(spec_eval_args(cs, 1, env, cur, fuel) == (
        Ok::<Seq<SpecValue>, EvalError>(seq![SpecValue::Int(a), SpecValue::Int(b)]),
        env2,
    ));
    let vs = seq![SpecValue::Int(a), SpecValue::Int(b)];
    let fresh = SpecScope { parent: Some(cenv), bindings: bind_params(seq![px, py], vs) };
    let env3 = env2.push(fresh);
    let ns = env2.len() as int;
    assert(seq![px, py].drop_last() =~= seq![px]);
    assert(vs.drop_last() =~= seq![SpecValue::Int(a)]);
    assert(seq![px].drop_last() =~= Seq::<Seq<char>>::empty());
    assert(seq![SpecValue::Int(a)].drop_last() =~= Seq::<SpecValue>::empty());
    reveal_with_fuel(bind_params, 3);
    assert(fresh.bindings == Map::<Seq<char>, SpecValue>::empty().insert(
        px,
        SpecValue::Int(a),
    ).insert(py, SpecValue::Int(b)));
    assert(env3[ns] == fresh);
    assert(fresh.bindings.contains_key(px) && fresh.bindings[px] == SpecValue::Int(a));
    assert(fresh.bindings.contains_key(py) && fresh.bindings[py] == SpecValue::Int(b));
    assert(lookup(env3, ns, px) == Some(SpecValue::Int(a)));
    assert(lookup(env3, ns, py) == Some(SpecValue::Int(b)));
    let body = SpecTree::Node(seq![SpecTree::Leaf(kw_plus()), SpecTree::Leaf(px), SpecTree::Leaf(py)]);
    let bcs = seq![SpecTree::Leaf(kw_plus()), SpecTree::Leaf(px), SpecTree::Leaf(py)];
    let bfuel = (fuel - 1) as nat;
    assert(spec_to_value(px, env3, ns) == Ok::<SpecValue, EvalError>(SpecValue::Int(a)));
    assert(spec_to_value(py, env3, ns) == Ok::<SpecValue, EvalError>(SpecValue::Int(b)));
    assert(spec_eval(bcs[1], env3, ns, bfuel) == (
        Ok::<SpecValue, EvalError>(SpecValue::Int(a)),
        env3,
    ));
    assert(spec_eval(bcs[2], env3, ns, bfuel) == (
        Ok::<SpecValue, EvalError>(SpecValue::Int(b)),
        env3,
    ));
    assert(spec_eval_args(bcs, 3, env3, ns, bfuel) == (
        Ok::<Seq<SpecValue>, EvalError>(Seq::empty()),
        env3,
    ));
    assert(spec_eval_args(bcs, 2, env3, ns, bfuel) == (
        Ok::<Seq<SpecValue>, EvalError>(seq![SpecValue::Int(b)]),
        env3,
    ));
    assert(spec_eval_args(bcs, 1, env3, ns, bfuel) == (
        Ok::<Seq<SpecValue>, EvalError>(vs),
        env3,
    ));
    reveal_with_fuel(crate::eval::fold_arith, 4);
    assert(crate::eval::fold_arith(ArithOp::Add, 0, vs, 0) == Ok::<i64, EvalError>(
        vstd::wrapping::i64_specs::wrapping_add(vstd::wrapping::i64_specs::wrapping_add(0, a), b),
    ));
    assert(vstd::wrapping::i64_specs::wrapping_add(0, a) == a);
    assert(spec_eval(body, env3, ns, bfuel) == (
        Ok::<SpecValue, EvalError>(
            SpecValue::Int(vstd::wrapping::i64_specs::wrapping_add(a, b)),
        ),
        env3,
    ));
}

} // verus!
