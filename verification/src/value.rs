//! Runtime values: the result of evaluating a tree, together with its
//! mathematical model and the reading of leaf tokens as literals.

use vstd::prelude::*;

use crate::tree::{SpecTree, Tree, clone_tree, tree_eq};

verus! {

/// The runtime result of evaluating a tree.
///
/// A string literal keeps its surrounding quotes, exactly as the token
/// was written. A closure holds its parameter names, its body tree, and
/// the index of the scope that was current where it was defined.
#[derive(Debug, PartialEq)]
pub enum Value {
    Str(String),
    Int(i64),
    Bool(bool),
    Nil,
    Closure { params: Vec<String>, body: Tree, env: usize },
}

/// The mathematical model of a [`Value`].
pub ghost enum SpecValue {
    Str(Seq<char>),
    Int(i64),
    Bool(bool),
    Nil,
    Closure { params: Seq<Seq<char>>, body: SpecTree, env: int },
}

impl View for Value {
    type V = SpecValue;

    open spec fn view(&self) -> SpecValue {
        match self {
            Value::Str(s) => SpecValue::Str(s@),
            Value::Int(i) => SpecValue::Int(*i),
            Value::Bool(b) => SpecValue::Bool(*b),
            Value::Nil => SpecValue::Nil,
            Value::Closure { params, body, env } => SpecValue::Closure {
                params: Seq::new(params@.len(), |i: int| params@[i]@),
                body: body@,
                env: *env as int,
            },
        }
    }
}

/// A decimal digit.
pub open spec fn is_digit(c: char) -> bool {
    48 <= c as u32 <= 57
}

/// The numeric value of a decimal digit.
pub open spec fn digit_val(c: char) -> int {
    c as u32 - 48
}

/// Every character of `s[from..]` is a decimal digit.
pub open spec fn all_digits(s: Seq<char>, from: int) -> bool {
    forall|i: int| from <= i < s.len() ==> is_digit(#[trigger] s[i])
}

/// The value of the digits `s[from..]` appended to an accumulator, read
/// left to right.
pub open spec fn digits_acc(s: Seq<char>, from: int, acc: int) -> int
    decreases s.len() - from,
{
    if 0 <= from < s.len() {
        digits_acc(s, from + 1, acc * 10 + digit_val(s[from]))
    } else {
        acc
    }
}

/// The mathematical integer a token denotes, if any: an optional sign
/// followed by at least one decimal digit.
pub open spec fn int_token_value(s: Seq<char>) -> Option<int> {
    if s.len() == 0 {
        None
    } else {
        let start: int = if s[0] == '-' || s[0] == '+' {
            1
        } else {
            0
        };
        let sign: int = if s[0] == '-' {
            -1
        } else {
            1
        };
        if start < s.len() && all_digits(s, start) {
            Some(sign * digits_acc(s, start, 0))
        } else {
            None
        }
    }
}

/// The token denotes an integer that fits in an `i64`.
pub open spec fn is_i64_token(s: Seq<char>) -> bool {
    match int_token_value(s) {
        Some(v) => i64::MIN <= v <= i64::MAX,
        None => false,
    }
}

/// Appending digits to a non-negative accumulator never shrinks it.
proof fn lemma_digits_acc_lb(s: Seq<char>, from: int, acc: int)
    requires
        acc >= 0,
        all_digits(s, from),
    ensures
        digits_acc(s, from, acc) >= acc,
    decreases s.len() - from,
{
    if 0 <= from < s.len() {
        assert(is_digit(s[from]));
        lemma_digits_acc_lb(s, from + 1, acc * 10 + digit_val(s[from]));
    }
}

/// Reads a token as an `i64`, accepting exactly the tokens that
/// [`is_i64_token`] accepts: an optional sign, then decimal digits,
/// denoting a value in the `i64` range.
#[verifier::loop_isolation(false)]
pub fn parse_i64(s: &str) -> (r: Option<i64>)
    ensures
        match r {
            Some(v) => int_token_value(s@) == Some(v as int),
            None => !is_i64_token(s@),
        },
{
    let n = s.unicode_len();
    if n == 0 {
        return None;
    }
    let c0 = s.get_char(0);
    let neg = c0 == '-';
    let mut i: usize = if c0 == '-' || c0 == '+' {
        1
    } else {
        0
    };
    let ghost start = i as int;
    if i >= n {
        return None;
    }
    let limit: u64 = if neg {
        9223372036854775808
    } else {
        9223372036854775807
    };
    let mut acc: u64 = 0;
    while i < n
        invariant
            start <= i <= n,
            acc <= limit,
            forall|j: int| start <= j < i ==> is_digit(#[trigger] s@[j]),
            digits_acc(s@, start, 0) == digits_acc(s@, i as int, acc as int),
        decreases n - i,
    {
        let c = s.get_char(i);
        let d = c as u32;
        if d < 48 || d > 57 {
            proof {
                assert(!is_digit(s@[i as int]));
                assert(!all_digits(s@, start));
            }
            return None;
        }
        let dv = (d - 48) as u64;
        let overflow = if acc > limit / 10 {
            true
        } else {
            acc == limit / 10 && dv > limit % 10
        };
        if overflow {
            proof {
                assert(acc * 10 + dv > limit) by (nonlinear_arith)
                    requires
                        acc <= limit,
                        dv <= 9,
                        (acc > limit / 10) || (acc == limit / 10 && dv > limit % 10),
                ;
                if all_digits(s@, start) {
                    assert(all_digits(s@, i as int + 1));
                    assert(digits_acc(s@, i as int, acc as int) == digits_acc(
                        s@,
                        i as int + 1,
                        acc * 10 + digit_val(s@[i as int]),
                    ));
                    lemma_digits_acc_lb(s@, i as int + 1, acc * 10 + dv);
                    assert(digits_acc(s@, start, 0) > limit);
                    assert(int_token_value(s@) == Some(
                        (if neg { -1int } else { 1int }) * digits_acc(s@, start, 0),
                    ));
                    assert(limit == (if neg {
                        9223372036854775808u64
                    } else {
                        9223372036854775807u64
                    }));
                    let d0 = digits_acc(s@, start, 0);
                    if neg {
                        assert(d0 > 9223372036854775808);
                        assert((-1int) * d0 == -d0) by (nonlinear_arith);
                        assert(-d0 < i64::MIN);
                    } else {
                        assert(d0 > 9223372036854775807);
                        assert(1int * d0 == d0) by (nonlinear_arith);
                        assert(d0 > i64::MAX);
                    }
                    assert(!is_i64_token(s@));
                } else {
                    assert(int_token_value(s@) is None);
                    assert(!is_i64_token(s@));
                }
            }
            return None;
        }
        proof {
            assert(acc * 10 + dv <= limit) by (nonlinear_arith)
                requires
                    acc <= limit / 10,
                    dv <= 9,
                    !(acc == limit / 10 && dv > limit % 10),
                    limit == if neg {
                        9223372036854775808u64
                    } else {
                        9223372036854775807u64
                    },
            ;
            assert(digits_acc(s@, i as int, acc as int) == digits_acc(
                s@,
                i as int + 1,
                acc as int * 10 + digit_val(s@[i as int]),
            ));
        }
        acc = acc * 10 + dv;
        i += 1;
    }
    proof {
        assert(digits_acc(s@, n as int, acc as int) == acc as int);
        assert(all_digits(s@, start));
        assert(int_token_value(s@) == Some((if neg { -1int } else { 1int }) * acc as int));
        if neg {
            assert(-1int * (acc as int) == -(acc as int)) by (nonlinear_arith);
            assert(int_token_value(s@) == Some(-(acc as int)));
        } else {
            assert(1int * (acc as int) == acc as int) by (nonlinear_arith);
            assert(int_token_value(s@) == Some(acc as int));
        }
    }
    if neg {
        if acc == 9223372036854775808 {
            Some(i64::MIN)
        } else {
            Some(-(acc as i64))
        }
    } else {
        Some(acc as i64)
    }
}

/// Structural equality of two values: same variant, same payload.
/// Closures are equal when their parameter lists, bodies, and captured
/// scopes all coincide.
pub fn value_eq(a: &Value, b: &Value) -> (r: bool)
    ensures
        r == (a@ == b@),
{
    match a {
        Value::Str(x) => match b {
            Value::Str(y) => *x == *y,
            _ => false,
        },
        Value::Int(x) => match b {
            Value::Int(y) => *x == *y,
            _ => false,
        },
        Value::Bool(x) => match b {
            Value::Bool(y) => *x == *y,
            _ => false,
        },
        Value::Nil => match b {
            Value::Nil => true,
            _ => false,
        },
        Value::Closure { params: xp, body: xb, env: xe } => match b {
            Value::Closure { params: yp, body: yb, env: ye } => {
                let pe = string_vecs_eq(xp, yp);
                let be = tree_eq(xb, yb);
                let r = pe && be && *xe == *ye;
                proof {
                    let av = a@;
                    let bv = b@;
                    if r {
                        assert(av->Closure_params =~= bv->Closure_params);
                        assert(av == bv);
                    } else {
                        if !pe {
                            assert(av->Closure_params != bv->Closure_params);
                        }
                    }
                }
                r
            },
            _ => false,
        },
    }
}

/// Elementwise equality of two vectors of strings.
#[verifier::loop_isolation(false)]
fn string_vecs_eq(a: &Vec<String>, b: &Vec<String>) -> (r: bool)
    ensures
        r == (Seq::new(a@.len(), |i: int| a@[i]@) == Seq::new(b@.len(), |i: int| b@[i]@)),
{
    let ghost av = Seq::new(a@.len(), |i: int| a@[i]@);
    let ghost bv = Seq::new(b@.len(), |i: int| b@[i]@);
    if a.len() != b.len() {
        proof {
            assert(av.len() != bv.len());
        }
        return false;
    }
    let n = a.len();
    let mut i: usize = 0;
    let mut same = true;
    while i < n
        invariant
            n == a@.len() == b@.len(),
            0 <= i <= n,
            same == (forall|j: int| 0 <= j < i ==> a@[j]@ == b@[j]@),
        decreases n - i,
    {
        if !(a[i] == b[i]) {
            same = false;
        }
        i += 1;
    }
    proof {
        if same {
            assert(av =~= bv);
        } else {
            let j = choose|j: int| 0 <= j < n && a@[j]@ != b@[j]@;
            assert(av[j] != bv[j]);
        }
    }
    same
}

/// A deep copy of a vector of strings, equal to the original in the
/// model.
#[verifier::loop_isolation(false)]
pub fn clone_strings(v: &Vec<String>) -> (r: Vec<String>)
    ensures
        r@.len() == v@.len(),
        forall|i: int| 0 <= i < v@.len() ==> r@[i] == v@[i],
{
    let n = v.len();
    let mut out: Vec<String> = Vec::new();
    let mut i: usize = 0;
    while i < n
        invariant
            n == v@.len(),
            0 <= i <= n,
            out@.len() == i,
            forall|j: int| 0 <= j < i ==> out@[j] == v@[j],
        decreases n - i,
    {
        let s = v[i].clone();
        out.push(s);
        i += 1;
    }
    out
}

/// A deep copy of a value, equal to the original in the model.
pub fn clone_value(v: &Value) -> (r: Value)
    ensures
        r@ == v@,
{
    match v {
        Value::Str(s) => Value::Str(s.clone()),
        Value::Int(i) => Value::Int(*i),
        Value::Bool(b) => Value::Bool(*b),
        Value::Nil => Value::Nil,
        Value::Closure { params, body, env } => {
            let ps = clone_strings(params);
            let bd = clone_tree(body);
            let r = Value::Closure { params: ps, body: bd, env: *env };
            proof {
                assert(r@->Closure_params =~= v@->Closure_params);
            }
            r
        },
    }
}

/// Character-by-character equality of two string slices.
#[verifier::loop_isolation(false)]
pub fn str_eq(a: &str, b: &str) -> (r: bool)
    ensures
        r == (a@ == b@),
{
    let na = a.unicode_len();
    let nb = b.unicode_len();
    if na != nb {
        proof {
            assert(a@.len() != b@.len());
        }
        return false;
    }
    let mut i: usize = 0;
    while i < na
        invariant
            na == a@.len() == b@.len(),
            0 <= i <= na,
            forall|j: int| 0 <= j < i ==> a@[j] == b@[j],
        decreases na - i,
    {
        if a.get_char(i) != b.get_char(i) {
            proof {
                assert(a@[i as int] != b@[i as int]);
            }
            return false;
        }
        i += 1;
    }
    proof {
        assert(a@ =~= b@);
    }
    true
}

/// The models of a vector of values, element by element.
pub open spec fn vals_of(vs: Seq<Value>) -> Seq<SpecValue> {
    Seq::new(
        vs.len(),
        |i: int|
            if 0 <= i < vs.len() {
                vs[i]@
            } else {
                SpecValue::Nil
            },
    )
}

} // verus!
