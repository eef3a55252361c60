//! Tests of the interpreter end to end: tokenizing, parsing, and
//! evaluating source text against a fresh environment.

use emola_rs::{eval, parse, tokenize, Env, EvalError, Tree, Value};

const FUEL: u64 = 100;

fn toks(xs: &[&str]) -> Vec<String> {
    xs.iter().map(|x| x.to_string()).collect()
}

fn run(src: &str) -> Result<Value, EvalError> {
    let tokens = tokenize(src);
    let tree = parse(&tokens).expect("parse failed");
    let mut env = Env::new();
    eval(&tree, &mut env, FUEL)
}

#[test]
fn test_eval() {
    let tokens = toks(&["(", "+", "2", "5", ")"]);
    let tree = parse(&tokens).unwrap();
    let mut env = Env::new();
    assert_eq!(Ok(Value::Int(7)), eval(&tree, &mut env, FUEL));
}

#[test]
fn test_eval_plus() {
    let tokens = toks(&["(", "def", "hoge", "5", ")"]);
    let tree = parse(&tokens).unwrap();
    let mut env = Env::new();
    let result = eval(&tree, &mut env, FUEL);
    assert_eq!(Ok(Value::Nil), result);
    assert_eq!(Some(Value::Int(5)), env.get(0, "hoge"));
}

#[test]
fn test_eval_def_fn() {
    let tokens = toks(&[
        "(", "def", "hoge", "(", "fn", "(", "x", "y", ")", "(", "+", "x", "y", ")", ")", ")",
    ]);
    let tree = parse(&tokens).unwrap();
    let mut env = Env::new();
    let result = eval(&tree, &mut env, FUEL);
    assert_eq!(Ok(Value::Nil), result);
}

#[test]
fn test_eval_if() {
    let tokens = toks(&[
        "(", "if", "(", "=", "1", "1", ")", "(", "+", "1", "2", ")", "(", "-", "1", "2", ")", ")",
    ]);
    let tree = parse(&tokens).unwrap();
    let mut env = Env::new();
    assert_eq!(Ok(Value::Int(3)), eval(&tree, &mut env, FUEL));

    let tokens2 = toks(&[
        "(", "if", "(", "=", "1", "2", ")", "(", "+", "1", "2", ")", "(", "-", "1", "2", ")", ")",
    ]);
    let tree2 = parse(&tokens2).unwrap();
    assert_eq!(Ok(Value::Int(-1)), eval(&tree2, &mut env, FUEL));
}

#[test]
fn test_eval_begin() {
    let tokens = toks(&[
        "(", "begin", "(", "def", "hoge", "1", ")", "(", "+", "hoge", "2", ")", ")",
    ]);
    let tree = parse(&tokens).unwrap();
    let mut env = Env::new();
    assert_eq!(Ok(Value::Int(3)), eval(&tree, &mut env, FUEL));
}

#[test]
fn test_tokenize() {
    assert_eq!(
        toks(&[
            "(", "def", "plus", "(", "fn", "(", "x", "y", ")", "(", "+", "x", "y", ")", ")", ")",
        ]),
        tokenize("(def plus (fn (x y) (+ x y)))")
    );
    assert_eq!(
        toks(&[
            "(", "def", "plus", "(", "fn", "(", "x", "y", ")", "(", "+", "\"piyo\"", "\"fuga\"",
            ")", ")", ")",
        ]),
        tokenize("(def plus (fn (x y) (+ \"piyo\" \"fuga\")))")
    );
}

fn leaf(s: &str) -> Tree {
    Tree::Leaf(s.to_string())
}

#[test]
fn test_parse() {
    let tokens = toks(&[
        "(", "def", "plus", "(", "fn", "(", "x", "y", ")", "(", "+", "x", "y", ")", ")", ")",
    ]);
    let expected = Tree::Node(vec![
        leaf("def"),
        leaf("plus"),
        Tree::Node(vec![
            leaf("fn"),
            Tree::Node(vec![leaf("x"), leaf("y")]),
            Tree::Node(vec![leaf("+"), leaf("x"), leaf("y")]),
        ]),
    ]);
    assert_eq!(Ok(expected), parse(&tokens));
}

#[test]
fn mod_test_parse() {
    let tokens = tokenize("(def plus (fn (x y) (+ x y)))");
    let expected = Tree::Node(vec![
        leaf("def"),
        leaf("plus"),
        Tree::Node(vec![
            leaf("fn"),
            Tree::Node(vec![leaf("x"), leaf("y")]),
            Tree::Node(vec![leaf("+"), leaf("x"), leaf("y")]),
        ]),
    ]);
    assert_eq!(Ok(expected), parse(&tokens));
}

#[test]
fn mod_test_eval() {
    let tokens = toks(&["(", "+", "1", "2", ")"]);
    let tree = parse(&tokens).unwrap();
    let mut env = Env::new();
    assert_eq!(Ok(Value::Int(3)), eval(&tree, &mut env, FUEL));
}

#[test]
fn parse_test_parse() {
    let tokens = toks(&[
        "(", "def", "plus", "(", "fn", "(", "x", "y", ")", "(", "+", "x", "y", ")", ")", ")",
    ]);
    let expected = Tree::Node(vec![
        leaf("def"),
        leaf("plus"),
        Tree::Node(vec![
            leaf("fn"),
            Tree::Node(vec![leaf("x"), leaf("y")]),
            Tree::Node(vec![leaf("+"), leaf("x"), leaf("y")]),
        ]),
    ]);
    assert_eq!(Ok(expected), parse(&tokens));
}

#[test]
fn arithmetic_forms() {
    assert_eq!(Ok(Value::Int(9)), run("(+ 4 5)"));
    assert_eq!(Ok(Value::Int(-13)), run("(- 4 17)"));
    assert_eq!(Ok(Value::Int(20)), run("(* 4 5)"));
    assert_eq!(Ok(Value::Int(4)), run("(/ 17 4)"));
    assert_eq!(Err(EvalError::DivisionByZero), run("(/ 17 0)"));
}

#[test]
fn arithmetic_variadic_and_unary() {
    assert_eq!(Ok(Value::Int(10)), run("(+ 1 2 3 4)"));
    assert_eq!(Ok(Value::Int(0)), run("(+)"));
    assert_eq!(Ok(Value::Int(1)), run("(*)"));
    assert_eq!(Ok(Value::Int(24)), run("(* 2 3 4)"));
    assert_eq!(Ok(Value::Int(5)), run("(- 5)"));
    assert_eq!(Ok(Value::Int(5)), run("(/ 5)"));
    assert_eq!(Ok(Value::Int(-6)), run("(- 1 3 4)"));
    assert_eq!(Ok(Value::Int(5)), run("(/ 100 4 5)"));
    assert_eq!(Err(EvalError::MalformedForm), run("(-)"));
    assert_eq!(Err(EvalError::MalformedForm), run("(/)"));
}

#[test]
fn arithmetic_wraps_at_the_ends() {
    assert_eq!(Ok(Value::Int(i64::MAX)), run("(+ 9223372036854775806 1)"));
    assert_eq!(Ok(Value::Int(i64::MIN)), run("(+ 9223372036854775807 1)"));
    assert_eq!(Ok(Value::Int(i64::MIN)), run("(/ -9223372036854775808 -1)"));
}

#[test]
fn integer_literal_bounds() {
    assert_eq!(Ok(Value::Int(i64::MAX)), run("9223372036854775807"));
    assert_eq!(Ok(Value::Int(i64::MIN)), run("-9223372036854775808"));
    assert_eq!(Ok(Value::Int(7)), run("+7"));
    assert_eq!(Ok(Value::Int(7)), run("007"));
    // One past the range is no longer an integer literal, so it is read
    // as a name, and nothing binds it.
    assert_eq!(Err(EvalError::UnboundName), run("9223372036854775808"));
}

#[test]
fn def_then_lookup_returns_the_value() {
    assert_eq!(Ok(Value::Int(42)), run("(do (def x 42) x)"));
    assert_eq!(Ok(Value::Bool(true)), run("(do (def x true) x)"));
    assert_eq!(
        Ok(Value::Str("\"hi\"".to_string())),
        run("(do (def x \"hi\") x)")
    );
}

#[test]
fn def_overwrites_in_the_same_scope() {
    assert_eq!(Ok(Value::Int(2)), run("(do (def x 1) (def x 2) x)"));
}

#[test]
fn if_selects_branches() {
    assert_eq!(Ok(Value::Int(3)), run("(if (= 1 1) (+ 1 2) (- 1 2))"));
    assert_eq!(Ok(Value::Int(-1)), run("(if (= 1 2) (+ 1 2) (- 1 2))"));
    assert_eq!(Err(EvalError::TypeMismatch), run("(if 1 2 3)"));
    assert_eq!(Err(EvalError::MalformedForm), run("(if true 1)"));
}

#[test]
fn do_sequences_and_empty_do_is_nil() {
    assert_eq!(Ok(Value::Int(3)), run("(do (def x 1) (+ x 2))"));
    assert_eq!(Ok(Value::Nil), run("(do)"));
    assert_eq!(Ok(Value::Nil), run("(begin)"));
}

#[test]
fn equality_is_structural() {
    assert_eq!(Ok(Value::Bool(true)), run("(= 1 1)"));
    assert_eq!(Ok(Value::Bool(false)), run("(= 1 2)"));
    assert_eq!(Ok(Value::Bool(false)), run("(= 1 true)"));
    assert_eq!(Ok(Value::Bool(true)), run("(= \"a\" \"a\")"));
    assert_eq!(Ok(Value::Bool(false)), run("(= \"a\" \"b\")"));
    assert_eq!(Err(EvalError::MalformedForm), run("(= 1)"));
}

#[test]
fn closure_invocation_returns_the_sum() {
    assert_eq!(
        Ok(Value::Int(7)),
        run("(do (def add (fn (x y) (+ x y))) (add 3 4))")
    );
}

#[test]
fn closure_invocation_with_wrong_arity_fails() {
    assert_eq!(
        Err(EvalError::ArityMismatch),
        run("(do (def add (fn (x y) (+ x y))) (add 3))")
    );
}

#[test]
fn closures_capture_lexically() {
    assert_eq!(
        Ok(Value::Int(15)),
        run("(do (def n 10) (def addn (fn (x) (+ x n))) (addn 5))")
    );
    assert_eq!(
        Ok(Value::Int(8)),
        run("(do (def f (fn (n) (fn (x) (+ x n)))) (def add5 (f 5)) (add5 3))")
    );
}

#[test]
fn immediately_invoked_closure() {
    assert_eq!(Ok(Value::Int(42)), run("((fn (x) (+ x 1)) 41)"));
}

#[test]
fn inner_def_does_not_alter_outer_binding() {
    let tokens = tokenize("(do (def x 1) (def f (fn () (do (def x 2) x))) (f))");
    let tree = parse(&tokens).unwrap();
    let mut env = Env::new();
    assert_eq!(Ok(Value::Int(2)), eval(&tree, &mut env, FUEL));
    // The `def` inside the call wrote to the call's own scope; the
    // global binding still holds 1.
    assert_eq!(Some(Value::Int(1)), env.get(0, "x"));
}

#[test]
fn def_in_do_shares_the_scope() {
    // `do` does not open a scope: only a function call does, so both
    // defs write to the same scope and the later one wins.
    let tokens = tokenize("(do (def x 1) (if true (do (def x 2) x) x))");
    let tree = parse(&tokens).unwrap();
    let mut env = Env::new();
    assert_eq!(Ok(Value::Int(2)), eval(&tree, &mut env, FUEL));
    assert_eq!(Some(Value::Int(2)), env.get(0, "x"));
}

#[test]
fn bindings_persist_across_evaluations() {
    let mut env = Env::new();
    let t1 = parse(&tokenize("(def x 41)")).unwrap();
    assert_eq!(Ok(Value::Nil), eval(&t1, &mut env, FUEL));
    let t2 = parse(&tokenize("(+ x 1)")).unwrap();
    assert_eq!(Ok(Value::Int(42)), eval(&t2, &mut env, FUEL));
}

#[test]
fn evaluation_errors() {
    assert_eq!(Err(EvalError::UnboundName), run("nope"));
    assert_eq!(Err(EvalError::UnboundName), run("(nope 1)"));
    assert_eq!(Err(EvalError::TypeMismatch), run("(+ 1 true)"));
    assert_eq!(Err(EvalError::NotCallable), run("(5 1)"));
    assert_eq!(Err(EvalError::NotCallable), run("(do (def x 3) (x 1))"));
    assert_eq!(Err(EvalError::MalformedForm), run("()"));
    assert_eq!(Err(EvalError::MalformedForm), run("(def (a) 1)"));
    assert_eq!(Err(EvalError::MalformedForm), run("(fn x 1)"));
}

#[test]
fn runaway_recursion_exhausts_fuel() {
    assert_eq!(
        Err(EvalError::DepthExceeded),
        run("(do (def f (fn () (f))) (f))")
    );
}

#[test]
fn string_values_keep_their_quotes() {
    assert_eq!(Ok(Value::Str("\"pi yo\"".to_string())), run("\"pi yo\""));
}
