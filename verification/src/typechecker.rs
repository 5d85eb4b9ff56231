use vstd::prelude::*;
use crate::ast::{BinaryOp, Expr, Param, Program, Stmt, TypeExpr, UnaryOp};
use crate::span::Span;
use crate::value::Value;
use crate::text::{decimal, push_decimal, string_append};
use crate::typeenv::{Sig, TVars, TypeEnv, TypeError, define_tv, lookup_tv};
use crate::ops::{binary_defined, binary_result, binary_spec};
use crate::types::{TV, Type, copy_types, tv_text, tview, tviews};

verus! {

/// The type of a program, and the type of each expression that was checked, by its span.
pub struct TypeInfo {
    pub ty: Type,
    pub expr_types: Vec<(Span, Type)>,
}

// ---------------------------------------------------------------------------
// The typing rules.
// ---------------------------------------------------------------------------

/// A type error as values: message and span.
pub type TErr = (Seq<char>, Span);

/// The function signatures as views.
pub type Sigs = Map<Seq<char>, Sig>;

/// `got` may stand where `expected` is wanted: the same type, or `Never` (control does not
/// get there).
pub open spec fn compat(expected: TV, got: TV) -> bool {
    expected == got || got is Never
}

pub open spec fn mismatch_msg(expected: TV, got: TV) -> Seq<char> {
    "type mismatch: expected "@ + tv_text(expected) + ", got "@ + tv_text(got)
}

/// The type of `op` applied to operands of types `l` and `r`, if it is defined.
pub open spec fn binary_tv(op: BinaryOp, l: TV, r: TV) -> Option<TV> {
    match op {
        BinaryOp::Add => if l is Int && r is Int {
            Some(TV::Int)
        } else if l is Str && r is Str {
            Some(TV::Str)
        } else {
            None
        },
        BinaryOp::Sub | BinaryOp::Mul | BinaryOp::Div | BinaryOp::Mod => if l is Int && r is Int {
            Some(TV::Int)
        } else {
            None
        },
        BinaryOp::Lt | BinaryOp::Le | BinaryOp::Gt | BinaryOp::Ge => if l is Int && r is Int {
            Some(TV::Bool)
        } else {
            None
        },
        BinaryOp::Eq | BinaryOp::Ne => if l == r {
            Some(TV::Bool)
        } else {
            None
        },
        BinaryOp::And | BinaryOp::Or => if l is Bool && r is Bool {
            Some(TV::Bool)
        } else {
            None
        },
    }
}

/// The message for an operator that is not defined on operands of types `l` and `r`.
pub open spec fn binary_msg(op: BinaryOp, l: TV, r: TV) -> Seq<char> {
    match op {
        BinaryOp::Add => "cannot add "@ + tv_text(l) + " and "@ + tv_text(r),
        BinaryOp::Sub | BinaryOp::Mul | BinaryOp::Div | BinaryOp::Mod => "arithmetic operators require Int, got "@
            + tv_text(l) + " and "@ + tv_text(r),
        BinaryOp::Lt | BinaryOp::Le | BinaryOp::Gt | BinaryOp::Ge => "comparison operators require Int, got "@
            + tv_text(l) + " and "@ + tv_text(r),
        BinaryOp::Eq | BinaryOp::Ne => "cannot compare "@ + tv_text(l) + " and "@ + tv_text(r),
        BinaryOp::And | BinaryOp::Or => "logical operators require Bool, got "@ + tv_text(l) + " and "@
            + tv_text(r),
    }
}

/// The type a type expression denotes.
pub open spec fn lower_tv(t: TypeExpr) -> Result<TV, TErr>
    decreases t,
{
    match t {
        TypeExpr::Named(name, sp) => if name@ == "Int"@ {
            Ok(TV::Int)
        } else if name@ == "Bool"@ {
            Ok(TV::Bool)
        } else if name@ == "String"@ {
            Ok(TV::Str)
        } else if name@ == "Unit"@ {
            Ok(TV::Unit)
        } else {
            Err(("unknown type: "@ + name@, sp))
        },
        TypeExpr::Generic { base, args, span } => if base@ != "Array"@ && base@ != "Object"@ {
            Err(("unknown type: "@ + base@, span))
        } else if args@.len() != 1 {
            Err((base@ + " takes exactly one type argument"@, span))
        } else {
            match lower_tv(args@[0]) {
                Err(x) => Err(x),
                Ok(inner) => if base@ == "Array"@ {
                    Ok(TV::Array(Box::new(inner)))
                } else {
                    Ok(TV::Object(Box::new(inner)))
                },
            }
        },
    }
}

pub open spec fn empty_array_msg() -> Seq<char> {
    "cannot infer the type of an empty array literal; add a type annotation"@
}

pub open spec fn empty_object_msg() -> Seq<char> {
    "cannot infer the type of an empty object literal; add a type annotation"@
}

/// The type of an expression where a value of type `expected` is wanted: an empty array or
/// object literal takes its type from an expected array or object type.
pub open spec fn tc_expect(e: Expr, v: TVars, f: Sigs, ret: Option<TV>, expected: Option<TV>) -> Result<
    TV,
    TErr,
>
    decreases e, 3int, 0int,
{
    match (e, expected) {
        (Expr::Array { elements, .. }, Some(TV::Array(inner))) => if elements@.len() == 0 {
            Ok(TV::Array(inner))
        } else {
            tc_expr(e, v, f, ret)
        },
        (Expr::Object { props, .. }, Some(TV::Object(inner))) => if props@.len() == 0 {
            Ok(TV::Object(inner))
        } else {
            tc_expr(e, v, f, ret)
        },
        _ => tc_expr(e, v, f, ret),
    }
}

/// The type of an expression under variables `v` and signatures `f`; `ret` is the return
/// type of the enclosing function, if any.
pub open spec fn tc_expr(e: Expr, v: TVars, f: Sigs, ret: Option<TV>) -> Result<TV, TErr>
    decreases e, 2int, 0int,
{
    match e {
        Expr::Int(_, _) => Ok(TV::Int),
        Expr::Bool(_, _) => Ok(TV::Bool),
        Expr::String(_, _) => Ok(TV::Str),
        Expr::Ident(name, sp) => match lookup_tv(v, name@) {
            Some(t) => Ok(t),
            None => if f.contains_key(name@) {
                Ok(TV::Function(f[name@].0, Box::new(f[name@].1)))
            } else {
                Err(("undefined variable: "@ + name@, sp))
            },
        },
        Expr::Group { expr, .. } => tc_expr(*expr, v, f, ret),
        Expr::Array { elements, span } => if elements@.len() == 0 {
            Err((empty_array_msg(), span))
        } else {
            match tc_expr(elements@[0], v, f, ret) {
                Err(x) => Err(x),
                Ok(first) => match tc_elems(e, elements@.len() as int, v, f, ret, first) {
                    Some(x) => Err(x),
                    None => Ok(TV::Array(Box::new(first))),
                },
            }
        },
        Expr::Object { props, span } => if props@.len() == 0 {
            Err((empty_object_msg(), span))
        } else {
            match tc_expr(props@[0].1, v, f, ret) {
                Err(x) => Err(x),
                Ok(first) => match tc_elems(e, props@.len() as int, v, f, ret, first) {
                    Some(x) => Err(x),
                    None => Ok(TV::Object(Box::new(first))),
                },
            }
        },
        Expr::Block { stmts, tail, .. } => match tc_stmts(
            e,
            stmts@.len() as int,
            (v.0, v.1.push(Map::empty())),
            f,
            ret,
        ) {
            Err(x) => Err(x),
            Ok((w, d)) => match tail {
                Some(t) => match tc_expr(*t, w, f, ret) {
                    Err(x) => Err(x),
                    Ok(tt) => Ok(if d { TV::Never } else { tt }),
                },
                None => Ok(if d { TV::Never } else { TV::Unit }),
            },
        },
        Expr::If { cond, then_branch, else_branch, span } => match tc_expr(*cond, v, f, ret) {
            Err(x) => Err(x),
            Ok(c) => if !(c is Bool) {
                Err(("if condition must be Bool, got "@ + tv_text(c), span))
            } else {
                match tc_expr(*then_branch, v, f, ret) {
                    Err(x) => Err(x),
                    Ok(t) => match tc_expr(*else_branch, v, f, ret) {
                        Err(x) => Err(x),
                        Ok(el) => if t == el {
                            Ok(t)
                        } else if t is Never {
                            Ok(el)
                        } else if el is Never {
                            Ok(t)
                        } else {
                            Err(
                                (
                                    "if branches must have the same type: got "@ + tv_text(t) + " and "@
                                        + tv_text(el),
                                    span,
                                ),
                            )
                        },
                    },
                }
            },
        },
        Expr::Call { callee, args, span } => match tc_expr(*callee, v, f, ret) {
            Err(x) => Err(x),
            Ok(ct) => match ct {
                TV::Function(params, r) => if params.len() != args@.len() {
                    Err(
                        (
                            "wrong number of arguments: expected "@ + decimal(params.len()) + ", got "@
                                + decimal(args@.len()),
                            span,
                        ),
                    )
                } else {
                    match tc_args(e, args@.len() as int, v, f, ret, params) {
                        Some(x) => Err(x),
                        None => Ok(*r),
                    }
                },
                _ => Err(("cannot call non-function value of type "@ + tv_text(ct), span)),
            },
        },
        Expr::Index { target, index, span } => match tc_expr(*target, v, f, ret) {
            Err(x) => Err(x),
            Ok(b) => match tc_expr(*index, v, f, ret) {
                Err(x) => Err(x),
                Ok(i) => match b {
                    TV::Array(inner) => if i is Int {
                        Ok(*inner)
                    } else {
                        Err(("array index must be Int, got "@ + tv_text(i), span))
                    },
                    TV::Object(inner) => if i is Str {
                        Ok(*inner)
                    } else {
                        Err(("object key must be String, got "@ + tv_text(i), span))
                    },
                    _ => Err(("cannot index into "@ + tv_text(b), span)),
                },
            },
        },
        Expr::Unary { op, expr, span } => match tc_expr(*expr, v, f, ret) {
            Err(x) => Err(x),
            Ok(t) => match op {
                UnaryOp::Neg => if t is Int {
                    Ok(TV::Int)
                } else {
                    Err(("cannot apply unary '-' to "@ + tv_text(t), span))
                },
                UnaryOp::Not => if t is Bool {
                    Ok(TV::Bool)
                } else {
                    Err(("cannot apply unary '!' to "@ + tv_text(t), span))
                },
            },
        },
        Expr::Binary { lhs, op, rhs, span } => match tc_expr(*lhs, v, f, ret) {
            Err(x) => Err(x),
            Ok(l) => match tc_expr(*rhs, v, f, ret) {
                Err(x) => Err(x),
                Ok(r) => match binary_tv(op, l, r) {
                    Some(t) => Ok(t),
                    None => Err((binary_msg(op, l, r), span)),
                },
            },
        },
    }
}

/// The first error among elements `1..k` of an array literal (or values of an object
/// literal): each must have the type `first` of the first one.
pub open spec fn tc_elems(e: Expr, k: int, v: TVars, f: Sigs, ret: Option<TV>, first: TV) -> Option<TErr>
    decreases e, 1int, k,
{
    if k <= 1 {
        None
    } else {
        match tc_elems(e, k - 1, v, f, ret, first) {
            Some(x) => Some(x),
            None => match e {
                Expr::Array { elements, .. } => if k - 1 < elements@.len() {
                    match tc_expect(elements@[k - 1], v, f, ret, Some(first)) {
                        Err(x) => Some(x),
                        Ok(t) => if t == first {
                            None
                        } else {
                            Some(
                                (
                                    "array elements must have the same type: expected "@ + tv_text(first)
                                        + ", got "@ + tv_text(t),
                                    elements@[k - 1].span_of(),
                                ),
                            )
                        },
                    }
                } else {
                    None
                },
                Expr::Object { props, .. } => if k - 1 < props@.len() {
                    match tc_expect(props@[k - 1].1, v, f, ret, Some(first)) {
                        Err(x) => Some(x),
                        Ok(t) => if t == first {
                            None
                        } else {
                            Some(
                                (
                                    "object values must have the same type: expected "@ + tv_text(first)
                                        + ", got "@ + tv_text(t),
                                    props@[k - 1].1.span_of(),
                                ),
                            )
                        },
                    }
                } else {
                    None
                },
                _ => None,
            },
        }
    }
}

/// The first error among the first `k` arguments of a call against parameter types `params`.
pub open spec fn tc_args(e: Expr, k: int, v: TVars, f: Sigs, ret: Option<TV>, params: Seq<TV>) -> Option<
    TErr,
>
    decreases e, 1int, k,
{
    if k <= 0 {
        None
    } else {
        match tc_args(e, k - 1, v, f, ret, params) {
            Some(x) => Some(x),
            None => match e {
                Expr::Call { args, .. } => if k - 1 < args@.len() && k - 1 < params.len() {
                    match tc_expect(args@[k - 1], v, f, ret, Some(params[k - 1])) {
                        Err(x) => Some(x),
                        Ok(t) => if compat(params[k - 1], t) {
                            None
                        } else {
                            Some(
                                (
                                    "argument type mismatch: expected "@ + tv_text(params[k - 1]) + ", got "@
                                        + tv_text(t),
                                    args@[k - 1].span_of(),
                                ),
                            )
                        },
                    }
                } else {
                    None
                },
                _ => None,
            },
        }
    }
}

/// The first `k` statements of a block, run from variables `v`: the variables after them and
/// whether one of them diverges.
pub open spec fn tc_stmts(e: Expr, k: int, v: TVars, f: Sigs, ret: Option<TV>) -> Result<(TVars, bool), TErr>
    decreases e, 1int, k,
{
    if k <= 0 {
        Ok((v, false))
    } else {
        match tc_stmts(e, k - 1, v, f, ret) {
            Err(x) => Err(x),
            Ok((w, d)) => match e {
                Expr::Block { stmts, .. } => if k - 1 < stmts@.len() {
                    match tc_stmt(stmts@[k - 1], w, f, ret) {
                        Err(x) => Err(x),
                        Ok((w2, d2)) => Ok((w2, d || d2)),
                    }
                } else {
                    Ok((w, d))
                },
                _ => Ok((w, d)),
            },
        }
    }
}

/// The scope of a function's parameters: the first `k` parameters bound to their types (a
/// later parameter of the same name wins).
pub open spec fn bind_params(params: Seq<Param>, tys: Seq<TV>, k: int) -> Map<Seq<char>, TV>
    decreases k,
{
    if k <= 0 {
        Map::empty()
    } else {
        bind_params(params, tys, k - 1).insert(params[k - 1].name@, tys[k - 1])
    }
}

pub open spec fn min_len(a: nat, b: nat) -> int {
    if a <= b { a as int } else { b as int }
}

/// Checking a statement: the variables after it, and whether it diverges.
pub open spec fn tc_stmt(s: Stmt, v: TVars, f: Sigs, ret: Option<TV>) -> Result<(TVars, bool), TErr>
    decreases s, 0int, 0int,
{
    match s {
        Stmt::Let { name, ty, expr, .. } => match ty {
            Some(ann) => match lower_tv(ann) {
                Err(x) => Err(x),
                Ok(a) => match tc_expect(expr, v, f, ret, Some(a)) {
                    Err(x) => Err(x),
                    Ok(t) => if compat(a, t) {
                        Ok((define_tv(v, name@, a), t is Never))
                    } else {
                        Err((mismatch_msg(a, t), ann.span_of()))
                    },
                },
            },
            None => match tc_expr(expr, v, f, ret) {
                Err(x) => Err(x),
                Ok(t) => Ok((define_tv(v, name@, t), t is Never)),
            },
        },
        Stmt::Assign { target, expr, span } => {
            let target_ty: Result<TV, TErr> = match target {
                Expr::Ident(name, sp) => match lookup_tv(v, name@) {
                    Some(t) => Ok(t),
                    None => Err(("undefined variable: "@ + name@, sp)),
                },
                Expr::Index { .. } => tc_expr(target, v, f, ret),
                _ => Err(("invalid assignment target"@, span)),
            };
            match target_ty {
                Err(x) => Err(x),
                Ok(tt) => match tc_expect(expr, v, f, ret, Some(tt)) {
                    Err(x) => Err(x),
                    Ok(t) => if compat(tt, t) {
                        Ok((v, t is Never))
                    } else {
                        Err((mismatch_msg(tt, t), span))
                    },
                },
            }
        },
        Stmt::Return { expr, span } => match ret {
            None => Err(("return is only allowed inside functions"@, span)),
            Some(r) => {
                let t: Result<TV, TErr> = match expr {
                    Some(x) => tc_expect(x, v, f, ret, Some(r)),
                    None => Ok(TV::Unit),
                };
                match t {
                    Err(x) => Err(x),
                    Ok(t) => if compat(r, t) {
                        Ok((v, true))
                    } else {
                        Err((mismatch_msg(r, t), span))
                    },
                }
            },
        },
        Stmt::Fn { name, params, body, span, .. } => if !f.contains_key(name@) {
            Err(("internal error: missing signature for function "@ + name@, span))
        } else {
            let sig = f[name@];
            let inner = (v.0, seq![bind_params(params@, sig.0, min_len(params@.len(), sig.0.len()))]);
            match tc_expr(body, inner, f, Some(sig.1)) {
                Err(x) => Err(x),
                Ok(bt) => if compat(sig.1, bt) {
                    Ok((v, false))
                } else {
                    Err((mismatch_msg(sig.1, bt), span))
                },
            }
        },
        Stmt::Expr { expr, .. } => match tc_expr(expr, v, f, ret) {
            Err(x) => Err(x),
            Ok(t) => Ok((v, t is Never)),
        },
    }
}

/// The types of the first `k` parameters.
pub open spec fn lower_params(ps: Seq<Param>, k: int) -> Result<Seq<TV>, TErr>
    decreases k,
{
    if k <= 0 {
        Ok(Seq::empty())
    } else {
        match lower_params(ps, k - 1) {
            Err(x) => Err(x),
            Ok(ts) => match lower_tv(ps[k - 1].ty) {
                Err(x) => Err(x),
                Ok(t) => Ok(ts.push(t)),
            },
        }
    }
}

/// The signatures of the builtin `gc` and of the functions declared among the first `k`
/// statements.
pub open spec fn tc_sigs(stmts: Seq<Stmt>, k: int) -> Result<Sigs, TErr>
    decreases k,
{
    if k <= 0 {
        Ok(Map::empty().insert("gc"@, (Seq::<TV>::empty(), TV::Unit)))
    } else {
        match tc_sigs(stmts, k - 1) {
            Err(x) => Err(x),
            Ok(fm) => match stmts[k - 1] {
                Stmt::Fn { name, params, ret_ty, span, .. } => if fm.contains_key(name@) {
                    Err(("duplicate function: "@ + name@, span))
                } else {
                    match lower_params(params@, params@.len() as int) {
                        Err(x) => Err(x),
                        Ok(ps) => match lower_tv(ret_ty) {
                            Err(x) => Err(x),
                            Ok(r) => Ok(fm.insert(name@, (ps, r))),
                        },
                    }
                },
                _ => Ok(fm),
            },
        }
    }
}

/// The variables after the first `k` top-level statements.
pub open spec fn tc_top(stmts: Seq<Stmt>, k: int, f: Sigs) -> Result<TVars, TErr>
    decreases k,
{
    if k <= 0 {
        Ok((Map::empty(), Seq::empty()))
    } else {
        match tc_top(stmts, k - 1, f) {
            Err(x) => Err(x),
            Ok(v) => match tc_stmt(stmts[k - 1], v, f, None) {
                Err(x) => Err(x),
                Ok((w, _)) => Ok(w),
            },
        }
    }
}

/// The type of a program: the signatures first, then the statements in order, then the tail
/// (`Unit` without one).
pub open spec fn program_tc(p: Program) -> Result<TV, TErr> {
    match tc_sigs(p.stmts@, p.stmts@.len() as int) {
        Err(x) => Err(x),
        Ok(f) => match tc_top(p.stmts@, p.stmts@.len() as int, f) {
            Err(x) => Err(x),
            Ok(v) => match p.tail {
                Some(e) => tc_expr(e, v, f, None),
                None => Ok(TV::Unit),
            },
        },
    }
}

// ---------------------------------------------------------------------------
// The expression types that checking records.
// ---------------------------------------------------------------------------

/// Recorded expression types as values: the span of each expression and its type.
pub type Trace = Seq<(Span, TV)>;

pub open spec fn trace_of(ts: Seq<(Span, Type)>) -> Trace {
    ts.map_values(|x: (Span, Type)| (x.0, tview(x.1)))
}

/// What checking `e` where a value of type `expected` is wanted records, in order: an empty
/// literal that takes its type from `expected` records that type at its span.
pub open spec fn tr_expect(e: Expr, v: TVars, f: Sigs, ret: Option<TV>, expected: Option<TV>) -> Trace
    decreases e, 3int, 0int,
{
    match (e, expected) {
        (Expr::Array { elements, span }, Some(TV::Array(inner))) => if elements@.len() == 0 {
            seq![(span, TV::Array(inner))]
        } else {
            tr_expr(e, v, f, ret)
        },
        (Expr::Object { props, span }, Some(TV::Object(inner))) => if props@.len() == 0 {
            seq![(span, TV::Object(inner))]
        } else {
            tr_expr(e, v, f, ret)
        },
        _ => tr_expr(e, v, f, ret),
    }
}

/// What checking `e` records: what checking its parts records, then its own span and type.
pub open spec fn tr_expr(e: Expr, v: TVars, f: Sigs, ret: Option<TV>) -> Trace
    decreases e, 2int, 0int,
{
    tr_inner(e, v, f, ret) + match tc_expr(e, v, f, ret) {
        Ok(t) => seq![(e.span_of(), t)],
        Err(_) => Seq::empty(),
    }
}

/// What checking the parts of `e` records, in the order the checker visits them.
pub open spec fn tr_inner(e: Expr, v: TVars, f: Sigs, ret: Option<TV>) -> Trace
    decreases e, 1int, 0int,
{
    match e {
        Expr::Group { expr, .. } => tr_expr(*expr, v, f, ret),
        Expr::Array { elements, .. } => if elements@.len() == 0 {
            Seq::empty()
        } else {
            tr_expr(elements@[0], v, f, ret) + match tc_expr(elements@[0], v, f, ret) {
                Ok(first) => tr_elems(e, elements@.len() as int, v, f, ret, first),
                Err(_) => Seq::empty(),
            }
        },
        Expr::Object { props, .. } => if props@.len() == 0 {
            Seq::empty()
        } else {
            tr_expr(props@[0].1, v, f, ret) + match tc_expr(props@[0].1, v, f, ret) {
                Ok(first) => tr_elems(e, props@.len() as int, v, f, ret, first),
                Err(_) => Seq::empty(),
            }
        },
        Expr::Block { stmts, tail, .. } => {
            let v0 = (v.0, v.1.push(Map::empty()));
            tr_stmts(e, stmts@.len() as int, v0, f, ret) + match tc_stmts(e, stmts@.len() as int, v0, f, ret) {
                Ok((w, _)) => match tail {
                    Some(t) => tr_expr(*t, w, f, ret),
                    None => Seq::empty(),
                },
                Err(_) => Seq::empty(),
            }
        },
        Expr::If { cond, then_branch, else_branch, .. } => tr_expr(*cond, v, f, ret) + tr_expr(
            *then_branch,
            v,
            f,
            ret,
        ) + tr_expr(*else_branch, v, f, ret),
        Expr::Call { callee, args, .. } => tr_expr(*callee, v, f, ret) + match tc_expr(*callee, v, f, ret) {
            Ok(TV::Function(params, _)) => tr_args(e, args@.len() as int, v, f, ret, params),
            _ => Seq::empty(),
        },
        Expr::Index { target, index, .. } => tr_expr(*target, v, f, ret) + tr_expr(*index, v, f, ret),
        Expr::Unary { expr, .. } => tr_expr(*expr, v, f, ret),
        Expr::Binary { lhs, rhs, .. } => tr_expr(*lhs, v, f, ret) + tr_expr(*rhs, v, f, ret),
        _ => Seq::empty(),
    }
}

/// What checking elements `1..k` of an array literal (or values of an object literal)
/// records.
pub open spec fn tr_elems(e: Expr, k: int, v: TVars, f: Sigs, ret: Option<TV>, first: TV) -> Trace
    decreases e, 0int, k,
{
    if k <= 1 {
        Seq::empty()
    } else {
        tr_elems(e, k - 1, v, f, ret, first) + match e {
            Expr::Array { elements, .. } => if k - 1 < elements@.len() {
                tr_expect(elements@[k - 1], v, f, ret, Some(first))
            } else {
                Seq::empty()
            },
            Expr::Object { props, .. } => if k - 1 < props@.len() {
                tr_expect(props@[k - 1].1, v, f, ret, Some(first))
            } else {
                Seq::empty()
            },
            _ => Seq::empty(),
        }
    }
}

/// What checking the first `k` arguments of a call records.
pub open spec fn tr_args(e: Expr, k: int, v: TVars, f: Sigs, ret: Option<TV>, params: Seq<TV>) -> Trace
    decreases e, 0int, k,
{
    if k <= 0 {
        Seq::empty()
    } else {
        tr_args(e, k - 1, v, f, ret, params) + match e {
            Expr::Call { args, .. } => if k - 1 < args@.len() && k - 1 < params.len() {
                tr_expect(args@[k - 1], v, f, ret, Some(params[k - 1]))
            } else {
                Seq::empty()
            },
            _ => Seq::empty(),
        }
    }
}

/// What checking the first `k` statements of a block records.
pub open spec fn tr_stmts(e: Expr, k: int, v: TVars, f: Sigs, ret: Option<TV>) -> Trace
    decreases e, 0int, k,
{
    if k <= 0 {
        Seq::empty()
    } else {
        tr_stmts(e, k - 1, v, f, ret) + match tc_stmts(e, k - 1, v, f, ret) {
            Ok((w, _)) => match e {
                Expr::Block { stmts, .. } => if k - 1 < stmts@.len() {
                    tr_stmt(stmts@[k - 1], w, f, ret)
                } else {
                    Seq::empty()
                },
                _ => Seq::empty(),
            },
            Err(_) => Seq::empty(),
        }
    }
}

/// What checking a statement records.
pub open spec fn tr_stmt(s: Stmt, v: TVars, f: Sigs, ret: Option<TV>) -> Trace
    decreases s, 0int, 0int,
{
    match s {
        Stmt::Let { ty, expr, .. } => match ty {
            Some(ann) => match lower_tv(ann) {
                Ok(a) => tr_expect(expr, v, f, ret, Some(a)),
                Err(_) => Seq::empty(),
            },
            None => tr_expr(expr, v, f, ret),
        },
        Stmt::Assign { target, expr, span } => {
            let target_ty: Result<TV, TErr> = match target {
                Expr::Ident(name, sp) => match lookup_tv(v, name@) {
                    Some(t) => Ok(t),
                    None => Err(("undefined variable: "@ + name@, sp)),
                },
                Expr::Index { .. } => tc_expr(target, v, f, ret),
                _ => Err(("invalid assignment target"@, span)),
            };
            (if target is Index {
                tr_expr(target, v, f, ret)
            } else {
                Seq::empty()
            }) + match target_ty {
                Ok(tt) => tr_expect(expr, v, f, ret, Some(tt)),
                Err(_) => Seq::empty(),
            }
        },
        Stmt::Return { expr, .. } => match (ret, expr) {
            (Some(r), Some(x)) => tr_expect(x, v, f, ret, Some(r)),
            _ => Seq::empty(),
        },
        Stmt::Fn { name, params, body, .. } => if !f.contains_key(name@) {
            Seq::empty()
        } else {
            let sig = f[name@];
            let inner = (v.0, seq![bind_params(params@, sig.0, min_len(params@.len(), sig.0.len()))]);
            tr_expr(body, inner, f, Some(sig.1))
        },
        Stmt::Expr { expr, .. } => tr_expr(expr, v, f, ret),
    }
}

/// What checking the first `k` top-level statements records.
pub open spec fn tr_top(stmts: Seq<Stmt>, k: int, f: Sigs) -> Trace
    decreases k,
{
    if k <= 0 {
        Seq::empty()
    } else {
        tr_top(stmts, k - 1, f) + match tc_top(stmts, k - 1, f) {
            Ok(v) => tr_stmt(stmts[k - 1], v, f, None),
            Err(_) => Seq::empty(),
        }
    }
}

/// The expression types recorded while checking a program: its statements in order, then
/// its tail.
#[verifier::opaque]
pub open spec fn program_trace(p: Program) -> Trace {
    match tc_sigs(p.stmts@, p.stmts@.len() as int) {
        Err(_) => Seq::empty(),
        Ok(f) => tr_top(p.stmts@, p.stmts@.len() as int, f) + match tc_top(p.stmts@, p.stmts@.len() as int, f) {
            Ok(v) => match p.tail {
                Some(e) => tr_expr(e, v, f, None),
                None => Seq::empty(),
            },
            Err(_) => Seq::empty(),
        },
    }
}

/// The outcome of checking, as values.
pub open spec fn outcome(r: Result<Type, TypeError>) -> Result<TV, TErr> {
    match r {
        Ok(t) => Ok(tview(t)),
        Err(e) => Err((e.message@, e.span)),
    }
}

pub open spec fn opt_tv(t: Option<&Type>) -> Option<TV> {
    match t {
        Some(x) => Some(tview(*x)),
        None => None,
    }
}

// ---------------------------------------------------------------------------
// The checker.
// ---------------------------------------------------------------------------

/// The string `s` reads `lit`.
fn text_is(s: &String, lit: &str) -> (r: bool)
    ensures
        r == (s@ == lit@),
{
    let t = lit.to_owned();
    *s == t
}

fn type_error(message: String, span: Span) -> (e: TypeError)
    ensures
        e.message == message,
        e.span == span,
{
    TypeError { message, span }
}

fn type_error_str(message: &str, span: Span) -> (e: TypeError)
    ensures
        e.message@ == message@,
        e.span == span,
{
    let mut m = String::new();
    string_append(&mut m, message);
    TypeError { message: m, span }
}

/// `prefix` followed by the written form of `t`.
fn msg1(prefix: &str, t: &Type) -> (s: String)
    ensures
        s@ == prefix@ + tv_text(tview(*t)),
{
    let mut s = String::new();
    string_append(&mut s, prefix);
    let tt = t.to_text();
    string_append(&mut s, tt.as_str());
    s
}

/// `prefix`, the written form of `a`, `middle`, and the written form of `b`.
fn msg2(prefix: &str, a: &Type, middle: &str, b: &Type) -> (s: String)
    ensures
        s@ == prefix@ + tv_text(tview(*a)) + middle@ + tv_text(tview(*b)),
{
    let mut s = msg1(prefix, a);
    string_append(&mut s, middle);
    let tb = b.to_text();
    string_append(&mut s, tb.as_str());
    s
}

/// The "type mismatch" message.
fn mismatch(expected: &Type, got: &Type) -> (s: String)
    ensures
        s@ == mismatch_msg(tview(*expected), tview(*got)),
{
    msg2("type mismatch: expected ", expected, ", got ", got)
}

/// `got` may stand where `expected` is wanted.
pub fn compatible(expected: &Type, got: &Type) -> (r: bool)
    ensures
        r == compat(tview(*expected), tview(*got)),
{
    expected.equals(got) || matches!(got, Type::Never)
}

/// The type of a binary operation on operands of types `l` and `r`.
pub fn check_binary(op: BinaryOp, l: Type, r: Type, span: Span) -> (res: Result<Type, TypeError>)
    ensures
        outcome(res) == match binary_tv(op, tview(l), tview(r)) {
            Some(t) => Ok(t),
            None => Err((binary_msg(op, tview(l), tview(r)), span)),
        },
{
    match op {
        BinaryOp::Add => {
            if matches!(l, Type::Int) && matches!(r, Type::Int) {
                Ok(Type::Int)
            } else if matches!(l, Type::String) && matches!(r, Type::String) {
                Ok(Type::String)
            } else {
                Err(type_error(msg2("cannot add ", &l, " and ", &r), span))
            }
        },
        BinaryOp::Sub | BinaryOp::Mul | BinaryOp::Div | BinaryOp::Mod => {
            if matches!(l, Type::Int) && matches!(r, Type::Int) {
                Ok(Type::Int)
            } else {
                Err(type_error(msg2("arithmetic operators require Int, got ", &l, " and ", &r), span))
            }
        },
        BinaryOp::Lt | BinaryOp::Le | BinaryOp::Gt | BinaryOp::Ge => {
            if matches!(l, Type::Int) && matches!(r, Type::Int) {
                Ok(Type::Bool)
            } else {
                Err(type_error(msg2("comparison operators require Int, got ", &l, " and ", &r), span))
            }
        },
        BinaryOp::Eq | BinaryOp::Ne => {
            if l.equals(&r) {
                Ok(Type::Bool)
            } else {
                Err(type_error(msg2("cannot compare ", &l, " and ", &r), span))
            }
        },
        BinaryOp::And | BinaryOp::Or => {
            if matches!(l, Type::Bool) && matches!(r, Type::Bool) {
                Ok(Type::Bool)
            } else {
                Err(type_error(msg2("logical operators require Bool, got ", &l, " and ", &r), span))
            }
        },
    }
}

/// The type that a type expression denotes.
pub fn lower_type(ty: &TypeExpr) -> (r: Result<Type, TypeError>)
    ensures
        outcome(r) == lower_tv(*ty),
    decreases ty,
{
    proof {
        reveal_strlit("Int");
        reveal_strlit("Bool");
        reveal_strlit("String");
        reveal_strlit("Unit");
        reveal_strlit("Array");
        reveal_strlit("Object");
    }
    match ty {
        TypeExpr::Named(name, sp) => {
            if text_is(name, "Int") {
                Ok(Type::Int)
            } else if text_is(name, "Bool") {
                Ok(Type::Bool)
            } else if text_is(name, "String") {
                Ok(Type::String)
            } else if text_is(name, "Unit") {
                Ok(Type::Unit)
            } else {
                let mut m = String::new();
                string_append(&mut m, "unknown type: ");
                string_append(&mut m, name.as_str());
                Err(type_error(m, *sp))
            }
        },
        TypeExpr::Generic { base, args, span } => {
            let is_array = text_is(base, "Array");
            let is_object = text_is(base, "Object");
            if !is_array && !is_object {
                let mut m = String::new();
                string_append(&mut m, "unknown type: ");
                string_append(&mut m, base.as_str());
                return Err(type_error(m, *span));
            }
            if args.len() != 1 {
                let mut m = String::new();
                string_append(&mut m, base.as_str());
                string_append(&mut m, " takes exactly one type argument");
                return Err(type_error(m, *span));
            }
            proof {
                assert(decreases_to!(args@ => args@[0]));
            }
            let inner = lower_type(&args[0])?;
            if is_array {
                Ok(Type::Array(Box::new(inner)))
            } else {
                Ok(Type::Object(Box::new(inner)))
            }
        },
    }
}

/// Records the type of the expression at `span`.
fn record(types: &mut Vec<(Span, Type)>, span: Span, t: &Type)
    ensures
        trace_of(final(types)@) == trace_of(old(types)@).push((span, tview(*t))),
{
    types.push((span, t.copy()));
    assert(trace_of(types@) =~= trace_of(old(types)@).push((span, tview(*t))));
}

/// Checks a program: function signatures first, so that calls work before definitions; then
/// the statements in order; the type of the program is the type of its tail, or `Unit`.
pub fn check_program(program: &Program) -> (r: Result<Type, TypeError>)
    ensures
        outcome(r) == program_tc(*program),
{
    match check_program_with_spans(program) {
        Ok(info) => Ok(info.ty),
        Err(e) => Err(e),
    }
}

/// The types of the parameters of a declaration.
fn lower_param_types(params: &Vec<Param>) -> (r: Result<Vec<Type>, TypeError>)
    ensures
        match r {
            Ok(ts) => lower_params(params@, params@.len() as int) == Ok::<Seq<TV>, TErr>(tviews(ts@)),
            Err(e) => lower_params(params@, params@.len() as int) == Err::<Seq<TV>, TErr>((e.message@, e.span)),
        },
{
    let mut ps: Vec<Type> = Vec::new();
    let mut j: usize = 0;
    while j < params.len()
        invariant
            j <= params@.len(),
            lower_params(params@, j as int) == Ok::<Seq<TV>, TErr>(tviews(ps@)),
        decreases params@.len() - j,
    {
        let t = match lower_type(&params[j].ty) {
            Ok(t) => t,
            Err(e) => {
                proof {
                    lemma_lower_params_err(params@, j as int + 1, params@.len() as int);
                }
                return Err(e);
            },
        };
        let ghost before = ps@;
        ps.push(t);
        proof {
            assert(ps@.drop_last() =~= before);
        }
        j = j + 1;
    }
    Ok(ps)
}

proof fn lemma_lower_params_err(ps: Seq<Param>, k: int, n: int)
    requires
        0 <= k <= n,
        lower_params(ps, k) is Err,
    ensures
        lower_params(ps, n) == lower_params(ps, k),
    decreases n - k,
{
    if k < n {
        lemma_lower_params_err(ps, k + 1, n);
    }
}

proof fn lemma_sigs_err(stmts: Seq<Stmt>, k: int, n: int)
    requires
        0 <= k <= n,
        tc_sigs(stmts, k) is Err,
    ensures
        tc_sigs(stmts, n) == tc_sigs(stmts, k),
    decreases n - k,
{
    if k < n {
        lemma_sigs_err(stmts, k + 1, n);
    }
}

proof fn lemma_top_err(stmts: Seq<Stmt>, k: int, n: int, f: Sigs)
    requires
        0 <= k <= n,
        tc_top(stmts, k, f) is Err,
    ensures
        tc_top(stmts, n, f) == tc_top(stmts, k, f),
    decreases n - k,
{
    if k < n {
        lemma_top_err(stmts, k + 1, n, f);
    }
}

/// Declares the builtin `gc` and the top-level functions of `program`.
fn collect_signatures(program: &Program, env: &mut TypeEnv) -> (r: Result<(), TypeError>)
    requires
        old(env).wf(),
        old(env).tv() == (Map::<Seq<char>, TV>::empty(), Seq::<Map<Seq<char>, TV>>::empty()),
        old(env).scopes_view().len() == 0,
        old(env).sigs() == Map::<Seq<char>, Sig>::empty(),
    ensures
        final(env).wf(),
        final(env).tv() == old(env).tv(),
        final(env).scopes_view().len() == 0,
        match r {
            Ok(()) => tc_sigs(program.stmts@, program.stmts@.len() as int) == Ok::<Sigs, TErr>(final(env).sigs()),
            Err(e) => tc_sigs(program.stmts@, program.stmts@.len() as int) == Err::<Sigs, TErr>((e.message@, e.span)),
        },
{
    let gc_name = "gc".to_string();
    let _ = env.define_fn(gc_name, Vec::new(), Type::Unit);
    proof {
        reveal_strlit("gc");
        assert(tviews(Seq::<Type>::empty()) =~= Seq::<TV>::empty());
        assert(env.sigs() =~= Map::<Seq<char>, Sig>::empty().insert("gc"@, (Seq::<TV>::empty(), TV::Unit)));
    }
    let ghost stmts = program.stmts@;
    let ghost n = stmts.len() as int;
    let mut i: usize = 0;
    while i < program.stmts.len()
        invariant
            env.wf(),
            stmts == program.stmts@,
            n == stmts.len(),
            i <= n,
            tc_sigs(stmts, i as int) == Ok::<Sigs, TErr>(env.sigs()),
            env.tv() == old(env).tv(),
            env.scopes_view().len() == 0,
        decreases n - i,
    {
        match &program.stmts[i] {
            Stmt::Fn { name, params, ret_ty, span, .. } => {
                if env.get_fn(name.as_str()).is_some() {
                    let mut m = String::new();
                    string_append(&mut m, "duplicate function: ");
                    string_append(&mut m, name.as_str());
                    proof {
                        lemma_sigs_err(stmts, i + 1, n);
                    }
                    return Err(type_error(m, *span));
                }
                let ps = match lower_param_types(params) {
                    Ok(ps) => ps,
                    Err(e) => {
                        proof {
                            lemma_sigs_err(stmts, i + 1, n);
                        }
                        return Err(e);
                    },
                };
                let ret = match lower_type(ret_ty) {
                    Ok(t) => t,
                    Err(e) => {
                        proof {
                            lemma_sigs_err(stmts, i + 1, n);
                        }
                        return Err(e);
                    },
                };
                let _ = env.define_fn(name.clone(), ps, ret);
            },
            _ => {},
        }
        i = i + 1;
    }
    Ok(())
}

/// Checks the top-level statements in order.
fn check_top(program: &Program, env: &mut TypeEnv, types: &mut Vec<(Span, Type)>) -> (r: Result<(), TypeError>)
    requires
        old(env).wf(),
        old(env).tv() == (Map::<Seq<char>, TV>::empty(), Seq::<Map<Seq<char>, TV>>::empty()),
        old(env).scopes_view().len() == 0,
    ensures
        final(env).wf(),
        final(env).sigs() == old(env).sigs(),
        match r {
            Ok(()) => tc_top(program.stmts@, program.stmts@.len() as int, old(env).sigs()) == Ok::<TVars, TErr>(final(env).tv()),
            Err(e) => tc_top(program.stmts@, program.stmts@.len() as int, old(env).sigs()) == Err::<TVars, TErr>((e.message@, e.span)),
        },
        r is Ok ==> trace_of(final(types)@) == trace_of(old(types)@) + tr_top(
            program.stmts@,
            program.stmts@.len() as int,
            old(env).sigs(),
        ),
{
    let ghost stmts = program.stmts@;
    let ghost n = stmts.len() as int;
    let ghost f = env.sigs();
    let mut i: usize = 0;
    proof {
        assert(trace_of(types@) =~= trace_of(old(types)@) + tr_top(stmts, 0, f));
    }
    while i < program.stmts.len()
        invariant
            env.wf(),
            stmts == program.stmts@,
            n == stmts.len(),
            i <= n,
            env.sigs() == f,
            env.funcs_view() == old(env).funcs_view(),
            env.scopes_view().len() == 0,
            tc_top(stmts, i as int, f) == Ok::<TVars, TErr>(env.tv()),
            trace_of(types@) == trace_of(old(types)@) + tr_top(stmts, i as int, f),
        decreases n - i,
    {
        match check_stmt(&program.stmts[i], env, None, types) {
            Ok(_) => {
                proof {
                    assert(trace_of(types@) =~= trace_of(old(types)@) + tr_top(stmts, i + 1, f));
                }
            },
            Err(e) => {
                proof {
                    lemma_top_err(stmts, i + 1, n, f);
                }
                return Err(e);
            },
        }
        i = i + 1;
    }
    Ok(())
}

/// Checks a program as `check_program` does, and also reports the type of each expression.
pub fn check_program_with_spans(program: &Program) -> (r: Result<TypeInfo, TypeError>)
    ensures
        match r {
            Ok(info) => program_tc(*program) == Ok::<TV, TErr>(tview(info.ty)) && trace_of(info.expr_types@)
                == program_trace(*program),
            Err(e) => program_tc(*program) == Err::<TV, TErr>((e.message@, e.span)),
        },
{
    let mut env = TypeEnv::new();
    proof {
        assert(env.tv().0 =~= Map::<Seq<char>, TV>::empty());
        assert(env.tv().1 =~= Seq::<Map<Seq<char>, TV>>::empty());
        assert(env.sigs() =~= Map::<Seq<char>, Sig>::empty());
    }
    let mut types: Vec<(Span, Type)> = Vec::new();
    proof {
        assert(trace_of(types@) =~= Seq::<(Span, TV)>::empty());
    }
    collect_signatures(program, &mut env)?;
    let ghost f = env.sigs();
    check_top(program, &mut env, &mut types)?;
    let ghost v = env.tv();
    let ghost t1 = trace_of(types@);
    let ty = match &program.tail {
        Some(expr) => check_expr(expr, &mut env, None, &mut types)?,
        None => Type::Unit,
    };
    proof {
        let tt = match &program.tail {
            Some(e) => tr_expr(*e, v, f, None),
            None => Seq::<(Span, TV)>::empty(),
        };
        assert(trace_of(types@) =~= t1 + tt);
        reveal(program_trace);
    }
    Ok(TypeInfo { ty, expr_types: types })
}

/// Checks a statement. Returns whether it diverges (control never continues after it).
fn check_stmt(
    stmt: &Stmt,
    env: &mut TypeEnv,
    ret: Option<&Type>,
    types: &mut Vec<(Span, Type)>,
) -> (r: Result<bool, TypeError>)
    requires
        old(env).wf(),
    ensures
        final(env).wf(),
        final(env).funcs_view() == old(env).funcs_view(),
        final(env).scopes_view().len() == old(env).scopes_view().len(),
        old(env).scopes_view().len() > 0 ==> final(env).globals_view() == old(env).globals_view()
            && final(env).scopes_view().drop_last() == old(env).scopes_view().drop_last(),
        match r {
            Ok(d) => tc_stmt(*stmt, old(env).tv(), old(env).sigs(), opt_tv(ret)) == Ok::<
                (TVars, bool),
                TErr,
            >((final(env).tv(), d)),
            Err(e) => tc_stmt(*stmt, old(env).tv(), old(env).sigs(), opt_tv(ret)) == Err::<
                (TVars, bool),
                TErr,
            >((e.message@, e.span)),
        },
        r is Ok ==> trace_of(final(types)@) == trace_of(old(types)@) + tr_stmt(
            *stmt,
            old(env).tv(),
            old(env).sigs(),
            opt_tv(ret),
        ),
    decreases stmt, 1nat,
{
    proof {
        reveal_strlit("invalid assignment target");
        reveal_strlit("return is only allowed inside functions");
    }
    match stmt {
        Stmt::Let { name, ty, expr, .. } => {
            match ty {
                Some(ann) => {
                    let ann_ty = lower_type(ann)?;
                    let t = check_expr_expecting(expr, env, ret, Some(&ann_ty), types)?;
                    if !compatible(&ann_ty, &t) {
                        return Err(type_error(mismatch(&ann_ty, &t), ann.span()));
                    }
                    let diverges = matches!(t, Type::Never);
                    env.define_var(name.clone(), ann_ty);
                    Ok(diverges)
                },
                None => {
                    let t = check_expr(expr, env, ret, types)?;
                    let diverges = matches!(t, Type::Never);
                    env.define_var(name.clone(), t);
                    Ok(diverges)
                },
            }
        },
        Stmt::Assign { target, expr, span } => {
            let target_ty = match target {
                Expr::Ident(name, sp) => {
                    match env.get_var(name.as_str()) {
                        Some(t) => t.copy(),
                        None => {
                            let mut m = String::new();
                            string_append(&mut m, "undefined variable: ");
                            string_append(&mut m, name.as_str());
                            return Err(type_error(m, *sp));
                        },
                    }
                },
                Expr::Index { .. } => check_expr(target, env, ret, types)?,
                _ => {
                    return Err(type_error_str("invalid assignment target", *span));
                },
            };
            let t = check_expr_expecting(expr, env, ret, Some(&target_ty), types)?;
            if !compatible(&target_ty, &t) {
                return Err(type_error(mismatch(&target_ty, &t), *span));
            }
            Ok(matches!(t, Type::Never))
        },
        Stmt::Return { expr, span } => {
            let expected = match ret {
                Some(t) => t,
                None => {
                    return Err(type_error_str("return is only allowed inside functions", *span));
                },
            };
            let t = match expr {
                Some(e) => check_expr_expecting(e, env, ret, Some(expected), types)?,
                None => Type::Unit,
            };
            if !compatible(expected, &t) {
                return Err(type_error(mismatch(expected, &t), *span));
            }
            Ok(true)
        },
        Stmt::Fn { name, params, body, span, .. } => {
            let sig = match env.get_fn(name.as_str()) {
                Some(s) => s.copy(),
                None => {
                    let mut m = String::new();
                    string_append(&mut m, "internal error: missing signature for function ");
                    string_append(&mut m, name.as_str());
                    return Err(type_error(m, *span));
                },
            };
            proof {
                crate::types::lemma_tys_eq_view(sig.params@, old(env).funcs_view()[name@].params@);
                crate::types::lemma_ty_eq_view(sig.ret, old(env).funcs_view()[name@].ret);
                crate::types::lemma_tviews_index(sig.params@);
            }
            let ghost sig_tv = old(env).sigs()[name@];
            let saved = env.take_scopes();
            env.push_scope();
            let mut j: usize = 0;
            while j < params.len() && j < sig.params.len()
                invariant
                    env.wf(),
                    env.funcs_view() == old(env).funcs_view(),
                    env.scopes_view().len() == 1,
                    env.globals_view() == old(env).globals_view(),
                    env.tv() == (old(env).tv().0, seq![bind_params(params@, sig_tv.0, j as int)]),
                    tviews(sig.params@) == sig_tv.0,
                    sig.params@.len() == sig_tv.0.len(),
                    j <= params@.len(),
                    j <= sig.params@.len(),
                decreases params@.len() - j,
            {
                proof {
                    crate::types::lemma_tviews_index(sig.params@);
                }
                env.define_var(params[j].name.clone(), sig.params[j].copy());
                proof {
                    assert(env.tv().1 =~= seq![bind_params(params@, sig_tv.0, j + 1)]);
                }
                j = j + 1;
            }
            let body_ty = check_expr(body, env, Some(&sig.ret), types);
            env.restore_scopes(saved);
            let body_ty = body_ty?;
            if !compatible(&sig.ret, &body_ty) {
                return Err(type_error(mismatch(&sig.ret, &body_ty), *span));
            }
            Ok(false)
        },
        Stmt::Expr { expr, .. } => {
            let t = check_expr(expr, env, ret, types)?;
            Ok(matches!(t, Type::Never))
        },
    }
}

/// Checks an expression where a value of type `expected` is wanted; this is what lets an
/// empty array or object literal take its type from an annotation.
fn check_expr_expecting(
    expr: &Expr,
    env: &mut TypeEnv,
    ret: Option<&Type>,
    expected: Option<&Type>,
    types: &mut Vec<(Span, Type)>,
) -> (r: Result<Type, TypeError>)
    requires
        old(env).wf(),
    ensures
        final(env).wf(),
        final(env).vars() == old(env).vars(),
        final(env).funcs_view() == old(env).funcs_view(),
        outcome(r) == tc_expect(*expr, old(env).tv(), old(env).sigs(), opt_tv(ret), opt_tv(expected)),
        r is Ok ==> trace_of(final(types)@) == trace_of(old(types)@) + tr_expect(
            *expr,
            old(env).tv(),
            old(env).sigs(),
            opt_tv(ret),
            opt_tv(expected),
        ),
    decreases expr, 4nat,
{
    match (expr, expected) {
        (Expr::Array { elements, span }, Some(Type::Array(inner))) => {
            if elements.len() == 0 {
                let t = Type::Array(Box::new(inner.copy()));
                record(types, *span, &t);
                proof {
                    assert(trace_of(types@) =~= trace_of(old(types)@) + seq![(*span, tview(t))]);
                }
                return Ok(t);
            }
        },
        (Expr::Object { props, span }, Some(Type::Object(inner))) => {
            if props.len() == 0 {
                let t = Type::Object(Box::new(inner.copy()));
                record(types, *span, &t);
                proof {
                    assert(trace_of(types@) =~= trace_of(old(types)@) + seq![(*span, tview(t))]);
                }
                return Ok(t);
            }
        },
        _ => {},
    }
    check_expr(expr, env, ret, types)
}

/// Checks an expression and returns its type.
fn check_expr(expr: &Expr, env: &mut TypeEnv, ret: Option<&Type>, types: &mut Vec<(Span, Type)>) -> (r:
    Result<Type, TypeError>)
    requires
        old(env).wf(),
    ensures
        final(env).wf(),
        final(env).vars() == old(env).vars(),
        final(env).funcs_view() == old(env).funcs_view(),
        outcome(r) == tc_expr(*expr, old(env).tv(), old(env).sigs(), opt_tv(ret)),
        r is Ok ==> trace_of(final(types)@) == trace_of(old(types)@) + tr_expr(
            *expr,
            old(env).tv(),
            old(env).sigs(),
            opt_tv(ret),
        ),
    decreases expr, 3nat,
{
    let t = check_expr_inner(expr, env, ret, types)?;
    record(types, expr.span(), &t);
    proof {
        let inner = tr_inner(*expr, old(env).tv(), old(env).sigs(), opt_tv(ret));
        assert(trace_of(types@) =~= trace_of(old(types)@) + (inner + seq![(expr.span_of(), tview(t))]));
    }
    Ok(t)
}

fn check_expr_inner(
    expr: &Expr,
    env: &mut TypeEnv,
    ret: Option<&Type>,
    types: &mut Vec<(Span, Type)>,
) -> (r: Result<Type, TypeError>)
    requires
        old(env).wf(),
    ensures
        final(env).wf(),
        final(env).vars() == old(env).vars(),
        final(env).funcs_view() == old(env).funcs_view(),
        outcome(r) == tc_expr(*expr, old(env).tv(), old(env).sigs(), opt_tv(ret)),
        r is Ok ==> trace_of(final(types)@) == trace_of(old(types)@) + tr_inner(
            *expr,
            old(env).tv(),
            old(env).sigs(),
            opt_tv(ret),
        ),
    decreases expr, 2nat,
{
    proof {
        assert(trace_of(types@) =~= trace_of(types@) + Seq::<(Span, TV)>::empty());
    }
    match expr {
        Expr::Int(_, _) => Ok(Type::Int),
        Expr::Bool(_, _) => Ok(Type::Bool),
        Expr::String(_, _) => Ok(Type::String),
        Expr::Ident(name, sp) => {
            match env.get_var(name.as_str()) {
                Some(t) => {
                    return Ok(t.copy());
                },
                None => {},
            }
            match env.get_fn(name.as_str()) {
                Some(sig) => Ok(
                    Type::Function { params: copy_types(&sig.params), ret: Box::new(sig.ret.copy()) },
                ),
                None => {
                    let mut m = String::new();
                    string_append(&mut m, "undefined variable: ");
                    string_append(&mut m, name.as_str());
                    Err(type_error(m, *sp))
                },
            }
        },
        Expr::Group { expr: inner, .. } => check_expr(inner, env, ret, types),
        Expr::Array { .. } => check_array(expr, env, ret, types),
        Expr::Object { .. } => check_object(expr, env, ret, types),
        Expr::Block { .. } => check_block(expr, env, ret, types),
        Expr::If { .. } => check_if(expr, env, ret, types),
        Expr::Call { .. } => check_call(expr, env, ret, types),
        Expr::Index { .. } => check_index(expr, env, ret, types),
        Expr::Unary { op, expr: inner, span } => {
            let t = check_expr(inner, env, ret, types)?;
            match op {
                UnaryOp::Neg => {
                    if !matches!(t, Type::Int) {
                        return Err(type_error(msg1("cannot apply unary '-' to ", &t), *span));
                    }
                    Ok(Type::Int)
                },
                UnaryOp::Not => {
                    if !matches!(t, Type::Bool) {
                        return Err(type_error(msg1("cannot apply unary '!' to ", &t), *span));
                    }
                    Ok(Type::Bool)
                },
            }
        },
        Expr::Binary { lhs, op, rhs, span } => {
            let l = check_expr(lhs, env, ret, types)?;
            let r = check_expr(rhs, env, ret, types)?;
            proof {
                let v = old(env).tv();
                let f = old(env).sigs();
                let rt = opt_tv(ret);
                assert(trace_of(types@) =~= trace_of(old(types)@) + (tr_expr(**lhs, v, f, rt) + tr_expr(**rhs, v, f, rt)));
            }
            check_binary(*op, l, r, *span)
        },
    }
}

fn check_array(expr: &Expr, env: &mut TypeEnv, ret: Option<&Type>, types: &mut Vec<(Span, Type)>) -> (r:
    Result<Type, TypeError>)
    requires
        old(env).wf(),
        expr is Array,
    ensures
        final(env).wf(),
        final(env).vars() == old(env).vars(),
        final(env).funcs_view() == old(env).funcs_view(),
        outcome(r) == tc_expr(*expr, old(env).tv(), old(env).sigs(), opt_tv(ret)),
        r is Ok ==> trace_of(final(types)@) == trace_of(old(types)@) + tr_inner(
            *expr,
            old(env).tv(),
            old(env).sigs(),
            opt_tv(ret),
        ),
    decreases expr, 1nat,
{
    proof {
        reveal_strlit("cannot infer the type of an empty array literal; add a type annotation");
    }
    let (elements, span) = match expr {
        Expr::Array { elements, span } => (elements, *span),
        _ => {
            return Ok(Type::Unit);
        },
    };
    if elements.len() == 0 {
        return Err(type_error_str("cannot infer the type of an empty array literal; add a type annotation", span));
    }
    proof {
        assert(decreases_to!(elements@ => elements@[0]));
    }
    let ghost v = old(env).tv();
    let ghost f = old(env).sigs();
    let ghost rt = opt_tv(ret);
    let first = check_expr(&elements[0], env, ret, types)?;
    let ghost ft = tview(first);
    let ghost t0 = trace_of(types@);
    proof {
        assert(t0 =~= t0 + tr_elems(*expr, 1, v, f, rt, ft));
    }
    let mut i: usize = 1;
    proof {
        assert forall|j: int| 0 <= j < elements@.len() implies decreases_to!(*expr => #[trigger] elements@[j]) by {
            assert(decreases_to!(elements@ => elements@[j]));
        }
    }
    while i < elements.len()
        invariant
            forall|j: int| 0 <= j < elements@.len() ==> decreases_to!(*expr => #[trigger] elements@[j]),
            expr is Array,
            *elements == expr->Array_elements,
            env.wf(),
            env.vars() == old(env).vars(),
            env.funcs_view() == old(env).funcs_view(),
            v == env.tv(),
            f == env.sigs(),
            rt == opt_tv(ret),
            ft == tview(first),
            1 <= i <= elements@.len(),
            tc_expr(elements@[0], v, f, rt) == Ok::<TV, TErr>(ft),
            tc_elems(*expr, i as int, v, f, rt, ft) is None,
            t0 == trace_of(old(types)@) + tr_expr(elements@[0], v, f, rt),
            trace_of(types@) == t0 + tr_elems(*expr, i as int, v, f, rt, ft),
        decreases elements@.len() - i,
    {
        proof {
            assert(decreases_to!(*expr => elements@[i as int]));
        }
        let t = match check_expr_expecting(&elements[i], env, ret, Some(&first), types) {
            Ok(t) => t,
            Err(e) => {
                proof {
                    assert(tc_elems(*expr, i + 1, v, f, rt, ft) == Some::<TErr>((e.message@, e.span)));
                    lemma_elems_err(*expr, i as int + 1, elements@.len() as int, v, f, rt, ft);
                }
                return Err(e);
            },
        };
        if !first.equals(&t) {
            let e = type_error(
                msg2("array elements must have the same type: expected ", &first, ", got ", &t),
                elements[i].span(),
            );
            proof {
                assert(tc_elems(*expr, i + 1, v, f, rt, ft) == Some::<TErr>((e.message@, e.span)));
                lemma_elems_err(*expr, i as int + 1, elements@.len() as int, v, f, rt, ft);
            }
            return Err(e);
        }
        proof {
            assert(trace_of(types@) =~= t0 + tr_elems(*expr, i + 1, v, f, rt, ft));
        }
        i = i + 1;
    }
    proof {
        assert(trace_of(types@) =~= trace_of(old(types)@) + (tr_expr(elements@[0], v, f, rt) + tr_elems(
            *expr,
            elements@.len() as int,
            v,
            f,
            rt,
            ft,
        )));
    }
    Ok(Type::Array(Box::new(first)))
}

proof fn lemma_elems_err(e: Expr, k: int, n: int, v: TVars, f: Sigs, ret: Option<TV>, first: TV)
    requires
        1 <= k <= n,
        tc_elems(e, k, v, f, ret, first) is Some,
    ensures
        tc_elems(e, n, v, f, ret, first) == tc_elems(e, k, v, f, ret, first),
    decreases n - k,
{
    if k < n {
        lemma_elems_err(e, k + 1, n, v, f, ret, first);
    }
}

proof fn lemma_args_err(e: Expr, k: int, n: int, v: TVars, f: Sigs, ret: Option<TV>, params: Seq<TV>)
    requires
        0 <= k <= n,
        tc_args(e, k, v, f, ret, params) is Some,
    ensures
        tc_args(e, n, v, f, ret, params) == tc_args(e, k, v, f, ret, params),
    decreases n - k,
{
    if k < n {
        lemma_args_err(e, k + 1, n, v, f, ret, params);
    }
}

proof fn lemma_stmts_err(e: Expr, k: int, n: int, v: TVars, f: Sigs, ret: Option<TV>)
    requires
        0 <= k <= n,
        tc_stmts(e, k, v, f, ret) is Err,
    ensures
        tc_stmts(e, n, v, f, ret) == tc_stmts(e, k, v, f, ret),
    decreases n - k,
{
    if k < n {
        lemma_stmts_err(e, k + 1, n, v, f, ret);
    }
}

fn check_object(expr: &Expr, env: &mut TypeEnv, ret: Option<&Type>, types: &mut Vec<(Span, Type)>) -> (r:
    Result<Type, TypeError>)
    requires
        old(env).wf(),
        expr is Object,
    ensures
        final(env).wf(),
        final(env).vars() == old(env).vars(),
        final(env).funcs_view() == old(env).funcs_view(),
        outcome(r) == tc_expr(*expr, old(env).tv(), old(env).sigs(), opt_tv(ret)),
        r is Ok ==> trace_of(final(types)@) == trace_of(old(types)@) + tr_inner(
            *expr,
            old(env).tv(),
            old(env).sigs(),
            opt_tv(ret),
        ),
    decreases expr, 1nat,
{
    proof {
        reveal_strlit("cannot infer the type of an empty object literal; add a type annotation");
    }
    let (props, span) = match expr {
        Expr::Object { props, span } => (props, *span),
        _ => {
            return Ok(Type::Unit);
        },
    };
    if props.len() == 0 {
        return Err(type_error_str("cannot infer the type of an empty object literal; add a type annotation", span));
    }
    proof {
        assert(decreases_to!(props@ => props@[0]));
        assert(decreases_to!(props@[0] => props@[0].1));
    }
    let ghost v = old(env).tv();
    let ghost f = old(env).sigs();
    let ghost rt = opt_tv(ret);
    let first = check_expr(&props[0].1, env, ret, types)?;
    let ghost ft = tview(first);
    let ghost t0 = trace_of(types@);
    proof {
        assert(t0 =~= t0 + tr_elems(*expr, 1, v, f, rt, ft));
    }
    let mut i: usize = 1;
    proof {
        assert forall|j: int| 0 <= j < props@.len() implies decreases_to!(*expr => #[trigger] props@[j].1) by {
            assert(decreases_to!(props@ => props@[j]));
            assert(decreases_to!(props@[j] => props@[j].1));
        }
    }
    while i < props.len()
        invariant
            forall|j: int| 0 <= j < props@.len() ==> decreases_to!(*expr => #[trigger] props@[j].1),
            expr is Object,
            *props == expr->Object_props,
            env.wf(),
            env.vars() == old(env).vars(),
            env.funcs_view() == old(env).funcs_view(),
            v == env.tv(),
            f == env.sigs(),
            rt == opt_tv(ret),
            ft == tview(first),
            1 <= i <= props@.len(),
            tc_expr(props@[0].1, v, f, rt) == Ok::<TV, TErr>(ft),
            tc_elems(*expr, i as int, v, f, rt, ft) is None,
            t0 == trace_of(old(types)@) + tr_expr(props@[0].1, v, f, rt),
            trace_of(types@) == t0 + tr_elems(*expr, i as int, v, f, rt, ft),
        decreases props@.len() - i,
    {
        proof {
            assert(decreases_to!(*expr => props@[i as int].1));
        }
        let t = match check_expr_expecting(&props[i].1, env, ret, Some(&first), types) {
            Ok(t) => t,
            Err(e) => {
                proof {
                    assert(tc_elems(*expr, i + 1, v, f, rt, ft) == Some::<TErr>((e.message@, e.span)));
                    lemma_elems_err(*expr, i as int + 1, props@.len() as int, v, f, rt, ft);
                }
                return Err(e);
            },
        };
        if !first.equals(&t) {
            let e = type_error(
                msg2("object values must have the same type: expected ", &first, ", got ", &t),
                props[i].1.span(),
            );
            proof {
                assert(tc_elems(*expr, i + 1, v, f, rt, ft) == Some::<TErr>((e.message@, e.span)));
                lemma_elems_err(*expr, i as int + 1, props@.len() as int, v, f, rt, ft);
            }
            return Err(e);
        }
        proof {
            assert(trace_of(types@) =~= t0 + tr_elems(*expr, i + 1, v, f, rt, ft));
        }
        i = i + 1;
    }
    proof {
        assert(trace_of(types@) =~= trace_of(old(types)@) + (tr_expr(props@[0].1, v, f, rt) + tr_elems(
            *expr,
            props@.len() as int,
            v,
            f,
            rt,
            ft,
        )));
    }
    Ok(Type::Object(Box::new(first)))
}

/// Checks the statements and tail of a block in a new scope. The block has type `Never` when
/// one of its statements diverges, else the type of its tail (`Unit` without one).
fn check_block(block: &Expr, env: &mut TypeEnv, ret: Option<&Type>, types: &mut Vec<(Span, Type)>) -> (r:
    Result<Type, TypeError>)
    requires
        old(env).wf(),
        block is Block,
    ensures
        final(env).wf(),
        final(env).vars() == old(env).vars(),
        final(env).funcs_view() == old(env).funcs_view(),
        outcome(r) == tc_expr(*block, old(env).tv(), old(env).sigs(), opt_tv(ret)),
        r is Ok ==> trace_of(final(types)@) == trace_of(old(types)@) + tr_inner(
            *block,
            old(env).tv(),
            old(env).sigs(),
            opt_tv(ret),
        ),
    decreases block, 1nat,
{
    let (stmts, tail) = match block {
        Expr::Block { stmts, tail, .. } => (stmts, tail),
        _ => {
            return Ok(Type::Unit);
        },
    };
    let ghost f = old(env).sigs();
    let ghost rt = opt_tv(ret);
    env.push_scope();
    let ghost v0 = env.tv();
    let mut diverged = false;
    let mut i: usize = 0;
    proof {
        assert(trace_of(types@) =~= trace_of(old(types)@) + tr_stmts(*block, 0, v0, f, rt));
    }
    proof {
        assert forall|j: int| 0 <= j < stmts@.len() implies decreases_to!(*block => #[trigger] stmts@[j]) by {
            assert(decreases_to!(stmts@ => stmts@[j]));
        }
    }
    while i < stmts.len()
        invariant
            forall|j: int| 0 <= j < stmts@.len() ==> decreases_to!(*block => #[trigger] stmts@[j]),
            block is Block,
            *stmts == block->Block_stmts,
            env.wf(),
            env.funcs_view() == old(env).funcs_view(),
            env.globals_view() == old(env).globals_view(),
            env.scopes_view().len() == old(env).scopes_view().len() + 1,
            env.scopes_view().drop_last() == old(env).scopes_view(),
            v0 == (old(env).tv().0, old(env).tv().1.push(Map::empty())),
            f == env.sigs(),
            rt == opt_tv(ret),
            i <= stmts@.len(),
            tc_stmts(*block, i as int, v0, f, rt) == Ok::<(TVars, bool), TErr>((env.tv(), diverged)),
            trace_of(types@) == trace_of(old(types)@) + tr_stmts(*block, i as int, v0, f, rt),
        decreases stmts@.len() - i,
    {
        proof {
            assert(decreases_to!(*block => stmts@[i as int]));
        }
        let ghost w = env.tv();
        let ghost before = trace_of(types@);
        let r = check_stmt(&stmts[i], env, ret, types);
        match r {
            Ok(d) => {
                proof {
                    assert(trace_of(types@) =~= trace_of(old(types)@) + tr_stmts(*block, i + 1, v0, f, rt));
                }
                diverged = diverged || d;
            },
            Err(e) => {
                proof {
                    lemma_stmts_err(*block, i as int + 1, stmts@.len() as int, v0, f, rt);
                }
                env.pop_scope();
                proof {
                    assert(env.scopes_view() == old(env).scopes_view());
                }
                return Err(e);
            },
        }
        i = i + 1;
    }
    let ghost w = env.tv();
    let t = match tail {
        Some(e) => check_expr(e, env, ret, types),
        None => Ok(Type::Unit),
    };
    proof {
        if t is Ok {
            let ts = tr_stmts(*block, stmts@.len() as int, v0, f, rt);
            let tt = match tail {
                Some(te) => tr_expr(**te, w, f, rt),
                None => Seq::<(Span, TV)>::empty(),
            };
            assert(trace_of(types@) =~= trace_of(old(types)@) + (ts + tt));
        }
    }
    env.pop_scope();
    proof {
        assert(env.scopes_view() == old(env).scopes_view());
    }
    let t = t?;
    if diverged {
        Ok(Type::Never)
    } else {
        Ok(t)
    }
}

fn check_if(expr: &Expr, env: &mut TypeEnv, ret: Option<&Type>, types: &mut Vec<(Span, Type)>) -> (r:
    Result<Type, TypeError>)
    requires
        old(env).wf(),
        expr is If,
    ensures
        final(env).wf(),
        final(env).vars() == old(env).vars(),
        final(env).funcs_view() == old(env).funcs_view(),
        outcome(r) == tc_expr(*expr, old(env).tv(), old(env).sigs(), opt_tv(ret)),
        r is Ok ==> trace_of(final(types)@) == trace_of(old(types)@) + tr_inner(
            *expr,
            old(env).tv(),
            old(env).sigs(),
            opt_tv(ret),
        ),
    decreases expr, 1nat,
{
    let (cond, then_branch, else_branch, span) = match expr {
        Expr::If { cond, then_branch, else_branch, span } => (cond, then_branch, else_branch, *span),
        _ => {
            return Ok(Type::Unit);
        },
    };
    let cond_ty = check_expr(cond, env, ret, types)?;
    if !matches!(cond_ty, Type::Bool) {
        return Err(type_error(msg1("if condition must be Bool, got ", &cond_ty), span));
    }
    let then_ty = check_expr(then_branch, env, ret, types)?;
    let else_ty = check_expr(else_branch, env, ret, types)?;
    proof {
        let v = old(env).tv();
        let f = old(env).sigs();
        let rt = opt_tv(ret);
        assert(trace_of(types@) =~= trace_of(old(types)@) + (tr_expr(**cond, v, f, rt) + tr_expr(**then_branch, v, f, rt)
            + tr_expr(**else_branch, v, f, rt)));
    }
    if then_ty.equals(&else_ty) {
        Ok(then_ty)
    } else if matches!(then_ty, Type::Never) {
        Ok(else_ty)
    } else if matches!(else_ty, Type::Never) {
        Ok(then_ty)
    } else {
        Err(
            type_error(
                msg2("if branches must have the same type: got ", &then_ty, " and ", &else_ty),
                span,
            ),
        )
    }
}

fn check_call(expr: &Expr, env: &mut TypeEnv, ret: Option<&Type>, types: &mut Vec<(Span, Type)>) -> (r:
    Result<Type, TypeError>)
    requires
        old(env).wf(),
        expr is Call,
    ensures
        final(env).wf(),
        final(env).vars() == old(env).vars(),
        final(env).funcs_view() == old(env).funcs_view(),
        outcome(r) == tc_expr(*expr, old(env).tv(), old(env).sigs(), opt_tv(ret)),
        r is Ok ==> trace_of(final(types)@) == trace_of(old(types)@) + tr_inner(
            *expr,
            old(env).tv(),
            old(env).sigs(),
            opt_tv(ret),
        ),
    decreases expr, 1nat,
{
    let (callee, args, span) = match expr {
        Expr::Call { callee, args, span } => (callee, args, *span),
        _ => {
            return Ok(Type::Unit);
        },
    };
    let ghost v = old(env).tv();
    let ghost f = old(env).sigs();
    let ghost rt = opt_tv(ret);
    let callee_ty = check_expr(callee, env, ret, types)?;
    let (params, ret_ty) = match callee_ty {
        Type::Function { params, ret } => (params, ret),
        other => {
            return Err(type_error(msg1("cannot call non-function value of type ", &other), span));
        },
    };
    proof {
        crate::types::lemma_tviews_index(params@);
    }
    if params.len() != args.len() {
        let mut m = String::new();
        string_append(&mut m, "wrong number of arguments: expected ");
        push_decimal(&mut m, params.len() as u64);
        string_append(&mut m, ", got ");
        push_decimal(&mut m, args.len() as u64);
        return Err(type_error(m, span));
    }
    let ghost pv = tviews(params@);
    let ghost t0 = trace_of(types@);
    proof {
        assert(t0 =~= t0 + tr_args(*expr, 0, v, f, rt, pv));
    }
    let mut i: usize = 0;
    proof {
        assert forall|j: int| 0 <= j < args@.len() implies decreases_to!(*expr => #[trigger] args@[j]) by {
            assert(decreases_to!(args@ => args@[j]));
        }
    }
    while i < args.len()
        invariant
            forall|j: int| 0 <= j < args@.len() ==> decreases_to!(*expr => #[trigger] args@[j]),
            expr is Call,
            *args == expr->Call_args,
            env.wf(),
            env.vars() == old(env).vars(),
            env.funcs_view() == old(env).funcs_view(),
            v == env.tv(),
            f == env.sigs(),
            rt == opt_tv(ret),
            pv == tviews(params@),
            pv.len() == params@.len(),
            forall|j: int| 0 <= j < params@.len() ==> #[trigger] pv[j] == tview(params@[j]),
            i <= args@.len(),
            params@.len() == args@.len(),
            *callee == expr->Call_callee,
            tc_expr(**callee, v, f, rt) == Ok::<TV, TErr>(TV::Function(pv, Box::new(tview(*ret_ty)))),
            tc_args(*expr, i as int, v, f, rt, pv) is None,
            t0 == trace_of(old(types)@) + tr_expr(**callee, v, f, rt),
            trace_of(types@) == t0 + tr_args(*expr, i as int, v, f, rt, pv),
        decreases args@.len() - i,
    {
        proof {
            assert(decreases_to!(*expr => args@[i as int]));
        }
        let t = match check_expr_expecting(&args[i], env, ret, Some(&params[i]), types) {
            Ok(t) => t,
            Err(e) => {
                proof {
                    assert(tc_args(*expr, i + 1, v, f, rt, pv) == Some::<TErr>((e.message@, e.span)));
                    lemma_args_err(*expr, i as int + 1, args@.len() as int, v, f, rt, pv);
                }
                return Err(e);
            },
        };
        if !compatible(&params[i], &t) {
            let e = type_error(
                msg2("argument type mismatch: expected ", &params[i], ", got ", &t),
                args[i].span(),
            );
            proof {
                assert(tc_args(*expr, i + 1, v, f, rt, pv) == Some::<TErr>((e.message@, e.span)));
                lemma_args_err(*expr, i as int + 1, args@.len() as int, v, f, rt, pv);
            }
            return Err(e);
        }
        proof {
            assert(trace_of(types@) =~= t0 + tr_args(*expr, i + 1, v, f, rt, pv));
        }
        i = i + 1;
    }
    proof {
        assert(trace_of(types@) =~= trace_of(old(types)@) + (tr_expr(**callee, v, f, rt) + tr_args(
            *expr,
            args@.len() as int,
            v,
            f,
            rt,
            pv,
        )));
    }
    Ok(*ret_ty)
}

fn check_index(expr: &Expr, env: &mut TypeEnv, ret: Option<&Type>, types: &mut Vec<(Span, Type)>) -> (r:
    Result<Type, TypeError>)
    requires
        old(env).wf(),
        expr is Index,
    ensures
        final(env).wf(),
        final(env).vars() == old(env).vars(),
        final(env).funcs_view() == old(env).funcs_view(),
        outcome(r) == tc_expr(*expr, old(env).tv(), old(env).sigs(), opt_tv(ret)),
        r is Ok ==> trace_of(final(types)@) == trace_of(old(types)@) + tr_inner(
            *expr,
            old(env).tv(),
            old(env).sigs(),
            opt_tv(ret),
        ),
    decreases expr, 1nat,
{
    let (target, index, span) = match expr {
        Expr::Index { target, index, span } => (target, index, *span),
        _ => {
            return Ok(Type::Unit);
        },
    };
    let base_ty = check_expr(target, env, ret, types)?;
    let index_ty = check_expr(index, env, ret, types)?;
    proof {
        let v = old(env).tv();
        let f = old(env).sigs();
        let rt = opt_tv(ret);
        assert(trace_of(types@) =~= trace_of(old(types)@) + (tr_expr(**target, v, f, rt) + tr_expr(**index, v, f, rt)));
    }
    match base_ty {
        Type::Array(inner) => {
            if !matches!(index_ty, Type::Int) {
                return Err(type_error(msg1("array index must be Int, got ", &index_ty), span));
            }
            Ok(*inner)
        },
        Type::Object(inner) => {
            if !matches!(index_ty, Type::String) {
                return Err(type_error(msg1("object key must be String, got ", &index_ty), span));
            }
            Ok(*inner)
        },
        other => Err(type_error(msg1("cannot index into ", &other), span)),
    }
}


/// The type of a value that holds no heap handle and names no function.
pub open spec fn plain_value_type(v: Value) -> Option<TV> {
    match v {
        Value::Int(_) => Some(TV::Int),
        Value::Bool(_) => Some(TV::Bool),
        Value::String(_) => Some(TV::Str),
        Value::Unit => Some(TV::Unit),
        _ => None,
    }
}

/// The typing of binary operators agrees with what they do when the program runs. On two
/// plain values: an operator that runs on them is typed on their types, and gives the type
/// of the value it computes (`==` and `!=` also run on values of two different types, which
/// the checker rejects); and an operator typed on their types runs on them, but for integer
/// overflow and division or remainder by zero. `&&` and `||` short-circuit and stand apart.
pub proof fn lemma_binary_typing_matches_runtime(op: BinaryOp, a: Value, b: Value, v: Value)
    requires
        !(op is And || op is Or),
        plain_value_type(a) is Some,
        plain_value_type(b) is Some,
    ensures
        binary_defined(op, a, b) && binary_result(op, a, b, v) && (!(op is Eq || op is Ne) || plain_value_type(a)
            == plain_value_type(b)) ==> binary_tv(op, plain_value_type(a)->Some_0, plain_value_type(b)->Some_0)
            == plain_value_type(v),
        binary_tv(op, plain_value_type(a)->Some_0, plain_value_type(b)->Some_0) is Some ==> binary_defined(op, a, b)
            || binary_spec(op, a, b) == Err::<Value, Seq<char>>("integer overflow"@) || binary_spec(op, a, b)
            == Err::<Value, Seq<char>>("division by zero"@) || binary_spec(op, a, b) == Err::<Value, Seq<char>>(
            "modulo by zero"@,
        ),
{
}


/// The value of a literal: an integer, boolean or string literal stands for that value.
pub open spec fn literal_value(e: Expr) -> Option<Value> {
    match e {
        Expr::Int(i, _) => Some(Value::Int(i)),
        Expr::Bool(b, _) => Some(Value::Bool(b)),
        Expr::String(s, _) => Some(Value::String(s)),
        _ => None,
    }
}

/// The checker accepts a binary operation on two literals exactly when the operation runs
/// on their values, with the type of the value it computes; the exceptions are integer
/// overflow and division or remainder by zero, which only running finds, and `==` or `!=`
/// on literals of two different types, which run but are rejected. So `"a" + "b"` has type
/// `String`, `1 + 2` type `Int`, `1 <= 2` type `Bool`, and `1 + "a"` is an error.
pub proof fn lemma_literal_binary_typing(
    l: Expr,
    op: BinaryOp,
    r: Expr,
    span: Span,
    v: TVars,
    f: Sigs,
    ret: Option<TV>,
    x: Value,
)
    requires
        !(op is And || op is Or),
        literal_value(l) is Some,
        literal_value(r) is Some,
    ensures
        ({
            let a = literal_value(l)->Some_0;
            let b = literal_value(r)->Some_0;
            let checked = tc_expr(Expr::Binary { lhs: Box::new(l), op: op, rhs: Box::new(r), span: span }, v, f, ret);
            &&& binary_defined(op, a, b) && binary_result(op, a, b, x) && (!(op is Eq || op is Ne)
                || plain_value_type(a) == plain_value_type(b)) ==> checked == Ok::<TV, TErr>(
                plain_value_type(x)->Some_0,
            )
            &&& checked is Ok ==> binary_defined(op, a, b) || binary_spec(op, a, b) == Err::<Value, Seq<char>>(
                "integer overflow"@,
            ) || binary_spec(op, a, b) == Err::<Value, Seq<char>>("division by zero"@) || binary_spec(op, a, b)
                == Err::<Value, Seq<char>>("modulo by zero"@)
        }),
{
    let a = literal_value(l)->Some_0;
    let b = literal_value(r)->Some_0;
    assert(tc_expr(l, v, f, ret) == Ok::<TV, TErr>(plain_value_type(a)->Some_0));
    assert(tc_expr(r, v, f, ret) == Ok::<TV, TErr>(plain_value_type(b)->Some_0));
    lemma_binary_typing_matches_runtime(op, a, b, x);
}


/// `&&` and `||` are typed `Bool` exactly on two `Bool` operands; `==` and `!=` are typed
/// `Bool` exactly on two operands of the same type, whatever it is.
pub proof fn lemma_logic_and_equality_typing(l: TV, r: TV)
    ensures
        binary_tv(BinaryOp::And, l, r) == (if l is Bool && r is Bool { Some(TV::Bool) } else { None::<TV> }),
        binary_tv(BinaryOp::Or, l, r) == (if l is Bool && r is Bool { Some(TV::Bool) } else { None::<TV> }),
        binary_tv(BinaryOp::Eq, l, r) == (if l == r { Some(TV::Bool) } else { None::<TV> }),
        binary_tv(BinaryOp::Ne, l, r) == binary_tv(BinaryOp::Eq, l, r),
{
}

} // verus!
