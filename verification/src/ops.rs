use vstd::prelude::*;
use crate::ast::{BinaryOp, UnaryOp};
use crate::text::string_append;
use crate::value::Value;

verus! {

/// What a binary operator gives on two runtime values: `Ok` with the result, or `Err` with
/// the message of the runtime error. `&&` and `||` short-circuit and are evaluated where they
/// stand, so they are not defined here. Integer arithmetic that leaves the range of `i64` is
/// an error, like division and remainder by zero.
pub open spec fn binary_spec(op: BinaryOp, l: Value, r: Value) -> Result<Value, Seq<char>> {
    match op {
        BinaryOp::Add => match (l, r) {
            (Value::Int(a), Value::Int(b)) => match a.checked_add(b) {
                Some(c) => Ok(Value::Int(c)),
                None => Err("integer overflow"@),
            },
            (Value::String(a), Value::String(b)) => Err(Seq::empty()),
            _ => Err("cannot add "@ + l.debug() + " and "@ + r.debug()),
        },
        BinaryOp::Sub => match (l, r) {
            (Value::Int(a), Value::Int(b)) => match a.checked_sub(b) {
                Some(c) => Ok(Value::Int(c)),
                None => Err("integer overflow"@),
            },
            _ => Err("cannot subtract "@ + r.debug() + " from "@ + l.debug()),
        },
        BinaryOp::Mul => match (l, r) {
            (Value::Int(a), Value::Int(b)) => match a.checked_mul(b) {
                Some(c) => Ok(Value::Int(c)),
                None => Err("integer overflow"@),
            },
            _ => Err("cannot multiply "@ + l.debug() + " and "@ + r.debug()),
        },
        BinaryOp::Div => match (l, r) {
            (Value::Int(a), Value::Int(b)) => if b == 0 {
                Err("division by zero"@)
            } else {
                match a.checked_div(b) {
                    Some(c) => Ok(Value::Int(c)),
                    None => Err("integer overflow"@),
                }
            },
            _ => Err("cannot divide "@ + l.debug() + " by "@ + r.debug()),
        },
        BinaryOp::Mod => match (l, r) {
            (Value::Int(a), Value::Int(b)) => if b == 0 {
                Err("modulo by zero"@)
            } else {
                match a.checked_rem(b) {
                    Some(c) => Ok(Value::Int(c)),
                    None => Err("integer overflow"@),
                }
            },
            _ => Err("cannot modulo "@ + l.debug() + " by "@ + r.debug()),
        },
        BinaryOp::Eq => Ok(Value::Bool(l.same(r))),
        BinaryOp::Ne => Ok(Value::Bool(!l.same(r))),
        BinaryOp::Lt => match (l, r) {
            (Value::Int(a), Value::Int(b)) => Ok(Value::Bool(a < b)),
            _ => Err("cannot compare "@ + l.debug() + " < "@ + r.debug()),
        },
        BinaryOp::Le => match (l, r) {
            (Value::Int(a), Value::Int(b)) => Ok(Value::Bool(a <= b)),
            _ => Err("cannot compare "@ + l.debug() + " <= "@ + r.debug()),
        },
        BinaryOp::Gt => match (l, r) {
            (Value::Int(a), Value::Int(b)) => Ok(Value::Bool(a > b)),
            _ => Err("cannot compare "@ + l.debug() + " > "@ + r.debug()),
        },
        BinaryOp::Ge => match (l, r) {
            (Value::Int(a), Value::Int(b)) => Ok(Value::Bool(a >= b)),
            _ => Err("cannot compare "@ + l.debug() + " >= "@ + r.debug()),
        },
        BinaryOp::And | BinaryOp::Or => Err("'&&' and '||' short-circuit and are evaluated where they stand"@),
    }
}

/// `v` is what `op` gives on `l` and `r`: a string concatenation for `+` on two strings, else
/// the value of `binary_spec`.
pub open spec fn binary_result(op: BinaryOp, l: Value, r: Value, v: Value) -> bool {
    match (op, l, r) {
        (BinaryOp::Add, Value::String(a), Value::String(b)) => v matches Value::String(s) && s@ == a@ + b@,
        _ => binary_spec(op, l, r) == Ok::<Value, Seq<char>>(v),
    }
}

/// `op` is defined on `l` and `r`.
pub open spec fn binary_defined(op: BinaryOp, l: Value, r: Value) -> bool {
    match (op, l, r) {
        (BinaryOp::Add, Value::String(_), Value::String(_)) => true,
        _ => binary_spec(op, l, r) is Ok,
    }
}

/// What a unary operator gives on a runtime value.
pub open spec fn unary_spec(op: UnaryOp, v: Value) -> Result<Value, Seq<char>> {
    match (op, v) {
        (UnaryOp::Neg, Value::Int(i)) => match 0i64.checked_sub(i) {
            Some(c) => Ok(Value::Int(c)),
            None => Err("integer overflow"@),
        },
        (UnaryOp::Not, Value::Bool(b)) => Ok(Value::Bool(!b)),
        (UnaryOp::Neg, _) => Err("cannot apply unary '-' to "@ + v.debug()),
        (UnaryOp::Not, _) => Err("cannot apply unary '!' to "@ + v.debug()),
    }
}

fn text3(a: &str, v: &Value, b: &str, w: &Value) -> (s: String)
    ensures
        s@ == a@ + v.debug() + b@ + w.debug(),
{
    let mut s = String::new();
    string_append(&mut s, a);
    let vd = v.to_debug_string();
    string_append(&mut s, vd.as_str());
    string_append(&mut s, b);
    let wd = w.to_debug_string();
    string_append(&mut s, wd.as_str());
    s
}

fn text(a: &str) -> (s: String)
    ensures
        s@ == a@,
{
    let mut s = String::new();
    string_append(&mut s, a);
    s
}

/// Applies a binary operator other than `&&` and `||` to two runtime values.
pub fn apply_binary(op: BinaryOp, l: Value, r: Value) -> (res: Result<Value, String>)
    ensures
        binary_defined(op, l, r) ==> (res matches Ok(v) && binary_result(op, l, r, v)),
        !binary_defined(op, l, r) ==> (res matches Err(m) && binary_spec(op, l, r) == Err::<
            Value,
            Seq<char>,
        >(m@)),
{
    proof {
        reveal_strlit("integer overflow");
        reveal_strlit("division by zero");
        reveal_strlit("modulo by zero");
    }
    match op {
        BinaryOp::Add => match (&l, &r) {
            (Value::Int(a), Value::Int(b)) => match a.checked_add(*b) {
                Some(c) => Ok(Value::Int(c)),
                None => Err(text("integer overflow")),
            },
            (Value::String(a), Value::String(b)) => {
                let mut s = String::new();
                string_append(&mut s, a.as_str());
                string_append(&mut s, b.as_str());
                Ok(Value::String(s))
            },
            _ => Err(text3("cannot add ", &l, " and ", &r)),
        },
        BinaryOp::Sub => match (&l, &r) {
            (Value::Int(a), Value::Int(b)) => match a.checked_sub(*b) {
                Some(c) => Ok(Value::Int(c)),
                None => Err(text("integer overflow")),
            },
            _ => Err(text3("cannot subtract ", &r, " from ", &l)),
        },
        BinaryOp::Mul => match (&l, &r) {
            (Value::Int(a), Value::Int(b)) => match a.checked_mul(*b) {
                Some(c) => Ok(Value::Int(c)),
                None => Err(text("integer overflow")),
            },
            _ => Err(text3("cannot multiply ", &l, " and ", &r)),
        },
        BinaryOp::Div => match (&l, &r) {
            (Value::Int(a), Value::Int(b)) => {
                if *b == 0 {
                    Err(text("division by zero"))
                } else {
                    match a.checked_div(*b) {
                        Some(c) => Ok(Value::Int(c)),
                        None => Err(text("integer overflow")),
                    }
                }
            },
            _ => Err(text3("cannot divide ", &l, " by ", &r)),
        },
        BinaryOp::Mod => match (&l, &r) {
            (Value::Int(a), Value::Int(b)) => {
                if *b == 0 {
                    Err(text("modulo by zero"))
                } else {
                    match a.checked_rem(*b) {
                        Some(c) => Ok(Value::Int(c)),
                        None => Err(text("integer overflow")),
                    }
                }
            },
            _ => Err(text3("cannot modulo ", &l, " by ", &r)),
        },
        BinaryOp::Eq => Ok(Value::Bool(l.equals(&r))),
        BinaryOp::Ne => Ok(Value::Bool(!l.equals(&r))),
        BinaryOp::Lt => match (&l, &r) {
            (Value::Int(a), Value::Int(b)) => Ok(Value::Bool(*a < *b)),
            _ => Err(text3("cannot compare ", &l, " < ", &r)),
        },
        BinaryOp::Le => match (&l, &r) {
            (Value::Int(a), Value::Int(b)) => Ok(Value::Bool(*a <= *b)),
            _ => Err(text3("cannot compare ", &l, " <= ", &r)),
        },
        BinaryOp::Gt => match (&l, &r) {
            (Value::Int(a), Value::Int(b)) => Ok(Value::Bool(*a > *b)),
            _ => Err(text3("cannot compare ", &l, " > ", &r)),
        },
        BinaryOp::Ge => match (&l, &r) {
            (Value::Int(a), Value::Int(b)) => Ok(Value::Bool(*a >= *b)),
            _ => Err(text3("cannot compare ", &l, " >= ", &r)),
        },
        BinaryOp::And | BinaryOp::Or => Err(
            text("'&&' and '||' short-circuit and are evaluated where they stand"),
        ),
    }
}

/// Applies a unary operator to a runtime value.
pub fn apply_unary(op: UnaryOp, v: Value) -> (res: Result<Value, String>)
    ensures
        match unary_spec(op, v) {
            Ok(x) => res == Ok::<Value, String>(x),
            Err(m) => res matches Err(e) && e@ == m,
        },
{
    proof {
        reveal_strlit("integer overflow");
    }
    match (op, &v) {
        (UnaryOp::Neg, Value::Int(i)) => match 0i64.checked_sub(*i) {
            Some(c) => Ok(Value::Int(c)),
            None => Err(text("integer overflow")),
        },
        (UnaryOp::Not, Value::Bool(b)) => Ok(Value::Bool(!*b)),
        (UnaryOp::Neg, _) => {
            let mut s = text("cannot apply unary '-' to ");
            let d = v.to_debug_string();
            string_append(&mut s, d.as_str());
            Err(s)
        },
        (UnaryOp::Not, _) => {
            let mut s = text("cannot apply unary '!' to ");
            let d = v.to_debug_string();
            string_append(&mut s, d.as_str());
            Err(s)
        },
    }
}


/// The comparison operators on two integers are always defined, and each gives the truth of
/// its comparison. `>=` answers the opposite of `<`, and `<=` the opposite of `>`, on every
/// pair; `>` and `>=` are `<` and `<=` with the operands swapped.
pub proof fn lemma_int_comparisons(a: i64, b: i64, x: bool)
    ensures
        binary_defined(BinaryOp::Lt, Value::Int(a), Value::Int(b)),
        binary_defined(BinaryOp::Le, Value::Int(a), Value::Int(b)),
        binary_defined(BinaryOp::Gt, Value::Int(a), Value::Int(b)),
        binary_defined(BinaryOp::Ge, Value::Int(a), Value::Int(b)),
        binary_result(BinaryOp::Lt, Value::Int(a), Value::Int(b), Value::Bool(x)) <==> x == (a < b),
        binary_result(BinaryOp::Le, Value::Int(a), Value::Int(b), Value::Bool(x)) <==> x == (a <= b),
        binary_result(BinaryOp::Gt, Value::Int(a), Value::Int(b), Value::Bool(x)) <==> x == (a > b),
        binary_result(BinaryOp::Ge, Value::Int(a), Value::Int(b), Value::Bool(x)) <==> x == (a >= b),
        binary_result(BinaryOp::Ge, Value::Int(a), Value::Int(b), Value::Bool(x))
            <==> binary_result(BinaryOp::Lt, Value::Int(a), Value::Int(b), Value::Bool(!x)),
        binary_result(BinaryOp::Le, Value::Int(a), Value::Int(b), Value::Bool(x))
            <==> binary_result(BinaryOp::Gt, Value::Int(a), Value::Int(b), Value::Bool(!x)),
        binary_result(BinaryOp::Gt, Value::Int(a), Value::Int(b), Value::Bool(x))
            <==> binary_result(BinaryOp::Lt, Value::Int(b), Value::Int(a), Value::Bool(x)),
        binary_result(BinaryOp::Ge, Value::Int(a), Value::Int(b), Value::Bool(x))
            <==> binary_result(BinaryOp::Le, Value::Int(b), Value::Int(a), Value::Bool(x)),
{
}

/// A comparison of two integers gives a boolean, nothing else.
pub proof fn lemma_int_comparison_is_bool(op: BinaryOp, a: i64, b: i64, v: Value)
    requires
        op is Lt || op is Le || op is Gt || op is Ge || op is Eq || op is Ne,
        binary_result(op, Value::Int(a), Value::Int(b), v),
    ensures
        v is Bool,
{
}

/// `==` and `!=` are defined on every pair of values and give opposite answers: `==` is
/// true exactly when the values are the same (integers and booleans equal, strings and
/// function names with the same text, heap values with the same handle).
pub proof fn lemma_equality_ops(l: Value, r: Value, x: bool)
    ensures
        binary_defined(BinaryOp::Eq, l, r),
        binary_defined(BinaryOp::Ne, l, r),
        binary_result(BinaryOp::Eq, l, r, Value::Bool(x)) <==> x == l.same(r),
        binary_result(BinaryOp::Ne, l, r, Value::Bool(x)) <==> x == !l.same(r),
        binary_result(BinaryOp::Ne, l, r, Value::Bool(x)) <==> binary_result(BinaryOp::Eq, l, r, Value::Bool(!x)),
        l.same(l),
        l.same(r) == r.same(l),
        (l is Int && r is Int) ==> (l.same(r) <==> l->Int_0 == r->Int_0),
{
}

/// Integer `+`, `-` and `*` give the exact result when it fits in `i64`, and an
/// "integer overflow" error when it does not; `+` on two strings gives their texts joined.
pub proof fn lemma_int_arithmetic(a: i64, b: i64, v: Value)
    ensures
        binary_defined(BinaryOp::Add, Value::Int(a), Value::Int(b)) <==> i64::MIN <= a + b <= i64::MAX,
        binary_defined(BinaryOp::Sub, Value::Int(a), Value::Int(b)) <==> i64::MIN <= a - b <= i64::MAX,
        binary_defined(BinaryOp::Mul, Value::Int(a), Value::Int(b)) <==> i64::MIN <= a * b <= i64::MAX,
        binary_result(BinaryOp::Add, Value::Int(a), Value::Int(b), v) <==> v is Int && v->Int_0 == a + b,
        binary_result(BinaryOp::Sub, Value::Int(a), Value::Int(b), v) <==> v is Int && v->Int_0 == a - b,
        binary_result(BinaryOp::Mul, Value::Int(a), Value::Int(b), v) <==> v is Int && v->Int_0 == a * b,
        !(i64::MIN <= a + b <= i64::MAX) ==> binary_spec(BinaryOp::Add, Value::Int(a), Value::Int(b))
            == Err::<Value, Seq<char>>("integer overflow"@),
{
}

/// `+` on two strings is defined and gives a string whose text is the two texts joined.
pub proof fn lemma_string_concat(a: String, b: String, v: Value)
    ensures
        binary_defined(BinaryOp::Add, Value::String(a), Value::String(b)),
        binary_result(BinaryOp::Add, Value::String(a), Value::String(b), v) <==> v is String && v->String_0@
            == a@ + b@,
{
}


/// Integer `/` and `%`: by zero they stop with "division by zero" and "modulo by zero";
/// otherwise, on a nonnegative dividend and a positive divisor, they give the quotient and
/// the remainder; and `i64::MIN / -1` overflows.
pub proof fn lemma_int_division(a: i64, b: i64, v: Value)
    ensures
        b == 0 ==> binary_spec(BinaryOp::Div, Value::Int(a), Value::Int(b)) == Err::<Value, Seq<char>>(
            "division by zero"@,
        ),
        b == 0 ==> binary_spec(BinaryOp::Mod, Value::Int(a), Value::Int(b)) == Err::<Value, Seq<char>>(
            "modulo by zero"@,
        ),
        a == i64::MIN && b == -1 ==> binary_spec(BinaryOp::Div, Value::Int(a), Value::Int(b)) == Err::<
            Value,
            Seq<char>,
        >("integer overflow"@),
        a >= 0 && b > 0 ==> (binary_result(BinaryOp::Div, Value::Int(a), Value::Int(b), v) <==> v == Value::Int(
            (a / b) as i64,
        )),
        a >= 0 && b > 0 ==> (binary_result(BinaryOp::Mod, Value::Int(a), Value::Int(b), v) <==> v == Value::Int(
            (a % b) as i64,
        )),
{
    if a >= 0 && b > 0 {
        assert(0 <= a / b <= a) by (nonlinear_arith)
            requires
                a >= 0,
                b > 0,
        ;
        assert(0 <= a % b < b) by (nonlinear_arith)
            requires
                a >= 0,
                b > 0,
        ;
        assert(a == 0 ==> a % b == 0 && a / b == 0) by (nonlinear_arith)
            requires
                a >= 0,
                b > 0,
        ;
    }
}

/// Unary `-` negates an integer, and overflows only on `i64::MIN`; `!` negates a boolean;
/// each is an error on any other value.
pub proof fn lemma_unary_ops(v: Value)
    ensures
        v is Int && v->Int_0 != i64::MIN ==> unary_spec(UnaryOp::Neg, v) == Ok::<Value, Seq<char>>(
            Value::Int((-v->Int_0) as i64),
        ),
        v == Value::Int(i64::MIN) ==> unary_spec(UnaryOp::Neg, v) == Err::<Value, Seq<char>>("integer overflow"@),
        v is Bool ==> unary_spec(UnaryOp::Not, v) == Ok::<Value, Seq<char>>(Value::Bool(!v->Bool_0)),
        !(v is Int) ==> unary_spec(UnaryOp::Neg, v) is Err,
        !(v is Bool) ==> unary_spec(UnaryOp::Not, v) is Err,
{
}

} // verus!
