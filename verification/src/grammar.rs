use vstd::prelude::*;
use crate::ast::{BinaryOp, Expr, Param, Program, Stmt, TypeExpr, UnaryOp};
use crate::lexer::{Token, TokenKind};
use crate::parser::{assignable, infix_of};
use crate::semantics::through;
use crate::span::{Span, max_usize, min_usize};

verus! {

/// The outcome of parsing from a position: the value and the position after it, or the
/// message and span of the error.
pub type Parsed<T> = Result<(T, int), (Seq<char>, Span)>;

/// The span covering `a` and `b`.
pub open spec fn join(a: Span, b: Span) -> Span {
    Span { start: min_usize(a.start, b.start), end: max_usize(a.end, b.end) }
}

/// An error at the token at `p`.
pub open spec fn fail_at<T>(ts: Seq<Token>, p: int, msg: Seq<char>) -> Parsed<T> {
    Err((msg, ts[p].span))
}

/// The token at `p` has kind `k`.
pub open spec fn kind_is(ts: Seq<Token>, p: int, k: TokenKind) -> bool {
    ts[p].kind == k
}

/// The sequence being parsed ends here: at `Eof` for the program, at `}` for a block.
pub open spec fn at_end(ts: Seq<Token>, p: int, top: bool) -> bool {
    if top {
        ts[p].kind is Eof
    } else {
        ts[p].kind is RBrace
    }
}

/// `r` is a success that ends at `q` with a value that satisfies `ok`.
pub open spec fn ends_ok<T>(r: Parsed<T>, q: int, ok: spec_fn(T) -> bool) -> bool {
    match r {
        Ok((x, q2)) => q2 == q && ok(x),
        Err(_) => false,
    }
}

pub open spec fn generic_type(t: TypeExpr, base: String, args: Seq<TypeExpr>, span: Span) -> bool {
    match t {
        TypeExpr::Generic { base: b, args: a, span: s } => b == base && a@ == args && s == span,
        _ => false,
    }
}

pub open spec fn call_expr(e: Expr, callee: Expr, args: Seq<Expr>, span: Span) -> bool {
    match e {
        Expr::Call { callee: c, args: a, span: s } => *c == callee && a@ == args && s == span,
        _ => false,
    }
}

pub open spec fn array_expr(e: Expr, elems: Seq<Expr>, span: Span) -> bool {
    match e {
        Expr::Array { elements, span: s } => elements@ == elems && s == span,
        _ => false,
    }
}

pub open spec fn object_expr(e: Expr, props: Seq<(String, Expr)>, span: Span) -> bool {
    match e {
        Expr::Object { props: ps, span: s } => ps@ == props && s == span,
        _ => false,
    }
}

pub open spec fn block_expr(e: Expr, stmts: Seq<Stmt>, tail: Option<Expr>, span: Span) -> bool {
    match e {
        Expr::Block { stmts: ss, tail: t, span: s } => ss@ == stmts && t == (match tail {
            Some(x) => Some(Box::new(x)),
            None => None,
        }) && s == span,
        _ => false,
    }
}

pub open spec fn fn_stmt(st: Stmt, name: String, params: Seq<Param>, ret_ty: TypeExpr, body: Expr, span: Span) -> bool {
    match st {
        Stmt::Fn { name: n, params: ps, ret_ty: rt, body: b, span: s } => n == name && ps@ == params && rt == ret_ty
            && b == body && s == span,
        _ => false,
    }
}

/// A type from `p`: `Name` or `Name<T, ...>`.
pub open spec fn parses_type(ts: Seq<Token>, p: int, r: Parsed<TypeExpr>) -> bool
    decreases ts.len() - p, 1nat,
{
    if p < 0 || p >= ts.len() {
        false
    } else {
        match ts[p].kind {
            TokenKind::Ident(base) => if p + 1 < ts.len() && kind_is(ts, p + 1, TokenKind::Less) {
                if p + 2 < ts.len() && kind_is(ts, p + 2, TokenKind::Greater) {
                    r == fail_at::<TypeExpr>(ts, p + 2, "expected type argument"@)
                } else {
                    exists|ra: Parsed<Seq<TypeExpr>>|
                        #[trigger] through(ra, p) && parses_type_args(ts, p + 2, Seq::empty(), ra) && match ra {
                            Err(e) => r == Err::<(TypeExpr, int), (Seq<char>, Span)>(e),
                            Ok((args, q)) => if kind_is(ts, q, TokenKind::Greater) {
                                ends_ok(r, q + 1, |t: TypeExpr| generic_type(t, base, args, join(ts[p].span, ts[q].span)))
                            } else {
                                r == fail_at::<TypeExpr>(ts, q, "expected '>' to close type arguments"@)
                            },
                        }
                }
            } else {
                r == Ok::<(TypeExpr, int), (Seq<char>, Span)>((TypeExpr::Named(base, ts[p].span), p + 1))
            },
            _ => r == fail_at::<TypeExpr>(ts, p, "expected type name"@),
        }
    }
}

/// Type arguments from `p`, after those in `acc`, separated by commas.
pub open spec fn parses_type_args(ts: Seq<Token>, p: int, acc: Seq<TypeExpr>, r: Parsed<Seq<TypeExpr>>) -> bool
    decreases ts.len() - p, 2nat,
{
    exists|r1: Parsed<TypeExpr>|
        #[trigger] through(r1, p) && parses_type(ts, p, r1) && match r1 {
            Err(e) => r == Err::<(Seq<TypeExpr>, int), (Seq<char>, Span)>(e),
            Ok((t, q)) => q > p && if kind_is(ts, q, TokenKind::Comma) {
                q + 1 < ts.len() && parses_type_args(ts, q + 1, acc.push(t), r)
            } else {
                r == Ok::<(Seq<TypeExpr>, int), (Seq<char>, Span)>((acc.push(t), q))
            },
        }
}

/// An expression from `p` whose binary operators bind at least as tightly as `min`.
pub open spec fn parses_expr(ts: Seq<Token>, p: int, min: u8, r: Parsed<Expr>) -> bool
    decreases ts.len() - p, 5nat,
{
    exists|r1: Parsed<Expr>|
        #[trigger] through(r1, p) && parses_prefix(ts, p, r1) && match r1 {
            Err(e) => r == Err::<(Expr, int), (Seq<char>, Span)>(e),
            Ok((e0, q0)) => q0 > p && q0 < ts.len() && exists|r2: Parsed<Expr>|
                #[trigger] through(r2, q0) && parses_postfix(ts, q0, e0, r2) && match r2 {
                    Err(e) => r == Err::<(Expr, int), (Seq<char>, Span)>(e),
                    Ok((e1, q1)) => q1 >= q0 && q1 < ts.len() && parses_infix(ts, q1, min, e1, r),
                },
        }
}

/// Binary operators from `p` that follow the operand `lhs`, each binding at least as tightly
/// as `min`; an operator of binding power `k` takes as right operand an expression whose
/// operators bind tighter than `k`.
pub open spec fn parses_infix(ts: Seq<Token>, p: int, min: u8, lhs: Expr, r: Parsed<Expr>) -> bool
    decreases ts.len() - p, 0nat,
{
    if p < 0 || p >= ts.len() {
        false
    } else {
        match infix_of(ts[p].kind) {
            Some((op, prec)) => if prec < min {
                r == Ok::<(Expr, int), (Seq<char>, Span)>((lhs, p))
            } else {
                exists|r1: Parsed<Expr>|
                    #[trigger] through(r1, p) && parses_expr(ts, p + 1, (prec + 1) as u8, r1) && match r1 {
                        Err(e) => r == Err::<(Expr, int), (Seq<char>, Span)>(e),
                        Ok((rhs, q)) => q > p && q < ts.len() && parses_infix(
                            ts,
                            q,
                            min,
                            Expr::Binary {
                                lhs: Box::new(lhs),
                                op: op,
                                rhs: Box::new(rhs),
                                span: join(join(lhs.span_of(), rhs.span_of()), ts[p].span),
                            },
                            r,
                        ),
                    }
            },
            None => r == Ok::<(Expr, int), (Seq<char>, Span)>((lhs, p)),
        }
    }
}

/// A unary operation whose operand is parsed from `p`.
pub open spec fn unary_result(op: UnaryOp, start: Span, r1: Parsed<Expr>) -> Parsed<Expr> {
    match r1 {
        Err(e) => Err(e),
        Ok((e, q)) => Ok((Expr::Unary { op: op, span: join(start, e.span_of()), expr: Box::new(e) }, q)),
    }
}

/// A literal, name, grouped, unary, `if`, block, array or object expression from `p`.
pub open spec fn parses_prefix(ts: Seq<Token>, p: int, r: Parsed<Expr>) -> bool
    decreases ts.len() - p, 4nat,
{
    if p < 0 || p >= ts.len() {
        false
    } else {
        let sp = ts[p].span;
        match ts[p].kind {
            TokenKind::Int(i) => r == Ok::<(Expr, int), (Seq<char>, Span)>((Expr::Int(i, sp), p + 1)),
            TokenKind::True => r == Ok::<(Expr, int), (Seq<char>, Span)>((Expr::Bool(true, sp), p + 1)),
            TokenKind::False => r == Ok::<(Expr, int), (Seq<char>, Span)>((Expr::Bool(false, sp), p + 1)),
            TokenKind::String(s) => r == Ok::<(Expr, int), (Seq<char>, Span)>((Expr::String(s, sp), p + 1)),
            TokenKind::Ident(s) => r == Ok::<(Expr, int), (Seq<char>, Span)>((Expr::Ident(s, sp), p + 1)),
            TokenKind::If => parses_if(ts, p + 1, sp, r),
            TokenKind::LBrace => parses_block_body(ts, p + 1, sp, r),
            TokenKind::LBracket => parses_array(ts, p + 1, sp, r),
            TokenKind::Hash => parses_object(ts, p + 1, sp, r),
            TokenKind::Minus => exists|r1: Parsed<Expr>|
                #[trigger] through(r1, p) && parses_expr(ts, p + 1, 7, r1) && r == unary_result(UnaryOp::Neg, sp, r1),
            TokenKind::Bang => exists|r1: Parsed<Expr>|
                #[trigger] through(r1, p) && parses_expr(ts, p + 1, 7, r1) && r == unary_result(UnaryOp::Not, sp, r1),
            TokenKind::LParen => exists|r1: Parsed<Expr>|
                #[trigger] through(r1, p) && parses_expr(ts, p + 1, 0, r1) && match r1 {
                    Err(e) => r == Err::<(Expr, int), (Seq<char>, Span)>(e),
                    Ok((e, q)) => if kind_is(ts, q, TokenKind::RParen) {
                        r == Ok::<(Expr, int), (Seq<char>, Span)>(
                            (Expr::Group { span: join(sp, ts[q].span), expr: Box::new(e) }, q + 1),
                        )
                    } else {
                        r == fail_at::<Expr>(ts, q, "expected ')'"@)
                    },
                },
            _ => r == Err::<(Expr, int), (Seq<char>, Span)>(("unexpected token in expression"@, sp)),
        }
    }
}

/// Calls and indexing from `p` that follow the expression `e`.
pub open spec fn parses_postfix(ts: Seq<Token>, p: int, e: Expr, r: Parsed<Expr>) -> bool
    decreases ts.len() - p, 3nat,
{
    if p < 0 || p >= ts.len() {
        false
    } else if kind_is(ts, p, TokenKind::LParen) {
        exists|r1: Parsed<Expr>|
            #[trigger] through(r1, p) && parses_call(ts, p, e, r1) && match r1 {
                Err(x) => r == Err::<(Expr, int), (Seq<char>, Span)>(x),
                Ok((e2, q)) => q > p && q < ts.len() && parses_postfix(ts, q, e2, r),
            }
    } else if kind_is(ts, p, TokenKind::LBracket) {
        exists|r1: Parsed<Expr>|
            #[trigger] through(r1, p) && parses_index(ts, p, e, r1) && match r1 {
                Err(x) => r == Err::<(Expr, int), (Seq<char>, Span)>(x),
                Ok((e2, q)) => q > p && q < ts.len() && parses_postfix(ts, q, e2, r),
            }
    } else {
        r == Ok::<(Expr, int), (Seq<char>, Span)>((e, p))
    }
}

/// Expressions from `p`, after those in `acc`, separated by commas and ended by a token of
/// kind `close` (a comma may come before it); the position after is at `close`.
pub open spec fn parses_elems(ts: Seq<Token>, p: int, acc: Seq<Expr>, close: TokenKind, r: Parsed<Seq<Expr>>) -> bool
    decreases ts.len() - p, 6nat,
{
    exists|r1: Parsed<Expr>|
        #[trigger] through(r1, p) && parses_expr(ts, p, 0, r1) && match r1 {
            Err(e) => r == Err::<(Seq<Expr>, int), (Seq<char>, Span)>(e),
            Ok((x, q)) => q > p && if kind_is(ts, q, TokenKind::Comma) {
                if kind_is(ts, q + 1, close) {
                    r == Ok::<(Seq<Expr>, int), (Seq<char>, Span)>((acc.push(x), q + 1))
                } else {
                    q + 1 < ts.len() && parses_elems(ts, q + 1, acc.push(x), close, r)
                }
            } else {
                r == Ok::<(Seq<Expr>, int), (Seq<char>, Span)>((acc.push(x), q))
            },
        }
}

/// `callee ( args )` from the `(` at `p`.
pub open spec fn parses_call(ts: Seq<Token>, p: int, callee: Expr, r: Parsed<Expr>) -> bool
    decreases ts.len() - p, 2nat,
{
    if p < 0 || p + 1 >= ts.len() {
        false
    } else if kind_is(ts, p + 1, TokenKind::RParen) {
        ends_ok(
            r,
            p + 2,
            |e: Expr| call_expr(e, callee, Seq::empty(), join(join(callee.span_of(), ts[p].span), ts[p + 1].span)),
        )
    } else {
        exists|ra: Parsed<Seq<Expr>>|
            #[trigger] through(ra, p) && parses_elems(ts, p + 1, Seq::empty(), TokenKind::RParen, ra) && match ra {
                Err(e) => r == Err::<(Expr, int), (Seq<char>, Span)>(e),
                Ok((xs, q)) => if kind_is(ts, q, TokenKind::RParen) {
                    ends_ok(
                        r,
                        q + 1,
                        |e: Expr| call_expr(e, callee, xs, join(join(callee.span_of(), ts[p].span), ts[q].span)),
                    )
                } else {
                    r == fail_at::<Expr>(ts, q, "expected ')'"@)
                },
            }
    }
}

/// `target [ index ]` from the `[` at `p`.
pub open spec fn parses_index(ts: Seq<Token>, p: int, target: Expr, r: Parsed<Expr>) -> bool
    decreases ts.len() - p, 2nat,
{
    0 <= p && p + 1 < ts.len() && exists|r1: Parsed<Expr>|
        #[trigger] through(r1, p) && parses_expr(ts, p + 1, 0, r1) && match r1 {
            Err(e) => r == Err::<(Expr, int), (Seq<char>, Span)>(e),
            Ok((ix, q)) => if kind_is(ts, q, TokenKind::RBracket) {
                r == Ok::<(Expr, int), (Seq<char>, Span)>(
                    (
                        Expr::Index {
                            target: Box::new(target),
                            index: Box::new(ix),
                            span: join(join(target.span_of(), ts[p].span), ts[q].span),
                        },
                        q + 1,
                    ),
                )
            } else {
                r == fail_at::<Expr>(ts, q, "expected ']'"@)
            },
        }
}

/// `[ elements ]` from right after the `[` whose span is `open`.
pub open spec fn parses_array(ts: Seq<Token>, p: int, open: Span, r: Parsed<Expr>) -> bool
    decreases ts.len() - p, 7nat,
{
    if p < 0 || p >= ts.len() {
        false
    } else if kind_is(ts, p, TokenKind::RBracket) {
        ends_ok(r, p + 1, |e: Expr| array_expr(e, Seq::empty(), join(open, ts[p].span)))
    } else {
        exists|ra: Parsed<Seq<Expr>>|
            #[trigger] through(ra, p) && parses_elems(ts, p, Seq::empty(), TokenKind::RBracket, ra) && match ra {
                Err(e) => r == Err::<(Expr, int), (Seq<char>, Span)>(e),
                Ok((xs, q)) => if kind_is(ts, q, TokenKind::RBracket) {
                    ends_ok(r, q + 1, |e: Expr| array_expr(e, xs, join(open, ts[q].span)))
                } else {
                    r == fail_at::<Expr>(ts, q, "expected ']'"@)
                },
            }
    }
}

/// Properties `key: value` from `p`, after those in `acc`, separated by commas and ended by
/// `}` (a comma may come before it); the position after is at `}`.
pub open spec fn parses_props(
    ts: Seq<Token>,
    p: int,
    acc: Seq<(String, Expr)>,
    r: Parsed<Seq<(String, Expr)>>,
) -> bool
    decreases ts.len() - p, 1nat,
{
    if p < 0 || p >= ts.len() {
        false
    } else {
        let key = match ts[p].kind {
            TokenKind::Ident(s) => Some(s),
            TokenKind::String(s) => Some(s),
            _ => None,
        };
        match key {
            None => r == fail_at::<Seq<(String, Expr)>>(ts, p, "expected object key (identifier or string)"@),
            Some(k) => p + 1 < ts.len() && if !kind_is(ts, p + 1, TokenKind::Colon) {
                r == fail_at::<Seq<(String, Expr)>>(ts, p + 1, "expected ':' after key"@)
            } else {
                exists|r1: Parsed<Expr>|
                    #[trigger] through(r1, p) && parses_expr(ts, p + 2, 0, r1) && match r1 {
                        Err(e) => r == Err::<(Seq<(String, Expr)>, int), (Seq<char>, Span)>(e),
                        Ok((v, q)) => q > p + 2 && if kind_is(ts, q, TokenKind::Comma) {
                            if kind_is(ts, q + 1, TokenKind::RBrace) {
                                r == Ok::<(Seq<(String, Expr)>, int), (Seq<char>, Span)>(
                                    (acc.push((k, v)), q + 1),
                                )
                            } else {
                                q + 1 < ts.len() && parses_props(ts, q + 1, acc.push((k, v)), r)
                            }
                        } else {
                            r == Ok::<(Seq<(String, Expr)>, int), (Seq<char>, Span)>((acc.push((k, v)), q))
                        },
                    }
            },
        }
    }
}

/// `# { key: value, ... }` from right after the `#` whose span is `hash`.
pub open spec fn parses_object(ts: Seq<Token>, p: int, hash: Span, r: Parsed<Expr>) -> bool
    decreases ts.len() - p, 7nat,
{
    if p < 0 || p >= ts.len() {
        false
    } else if !kind_is(ts, p, TokenKind::LBrace) {
        r == fail_at::<Expr>(ts, p, "expected '{' after '#'"@)
    } else if p + 1 >= ts.len() {
        false
    } else if kind_is(ts, p + 1, TokenKind::RBrace) {
        ends_ok(r, p + 2, |e: Expr| object_expr(e, Seq::empty(), join(hash, ts[p + 1].span)))
    } else {
        exists|rp: Parsed<Seq<(String, Expr)>>|
            #[trigger] through(rp, p) && parses_props(ts, p + 1, Seq::empty(), rp) && match rp {
                Err(e) => r == Err::<(Expr, int), (Seq<char>, Span)>(e),
                Ok((ps, q)) => if kind_is(ts, q, TokenKind::RBrace) {
                    ends_ok(r, q + 1, |e: Expr| object_expr(e, ps, join(hash, ts[q].span)))
                } else {
                    r == fail_at::<Expr>(ts, q, "expected '}'"@)
                },
            }
    }
}

/// A conditional from its parts, given how parsing its `else` branch ended.
pub open spec fn if_result(start: Span, cond: Expr, th: Expr, el: Parsed<Expr>) -> Parsed<Expr> {
    match el {
        Err(e) => Err(e),
        Ok((x, q)) => Ok(
            (
                Expr::If {
                    cond: Box::new(cond),
                    then_branch: Box::new(th),
                    else_branch: Box::new(x),
                    span: join(start, x.span_of()),
                },
                q,
            ),
        ),
    }
}

/// `cond { ... } else ...` from right after the `if` whose span is `start`.
pub open spec fn parses_if(ts: Seq<Token>, p: int, start: Span, r: Parsed<Expr>) -> bool
    decreases ts.len() - p, 8nat,
{
    exists|rc: Parsed<Expr>|
        #[trigger] through(rc, p) && parses_expr(ts, p, 0, rc) && match rc {
            Err(e) => r == Err::<(Expr, int), (Seq<char>, Span)>(e),
            Ok((cond, q1)) => q1 > p && q1 < ts.len() && exists|rt: Parsed<Expr>|
                #[trigger] through(rt, q1) && parses_block(ts, q1, rt) && match rt {
                    Err(e) => r == Err::<(Expr, int), (Seq<char>, Span)>(e),
                    Ok((th, q2)) => q2 > q1 && q2 < ts.len() && parses_else(ts, q2, start, cond, th, r),
                },
        }
}

/// What follows the first block of a conditional that starts at `start`, from `q`: `else`
/// and then a conditional or a block.
pub open spec fn parses_else(ts: Seq<Token>, q: int, start: Span, cond: Expr, th: Expr, r: Parsed<Expr>) -> bool
    decreases ts.len() - q, 7nat,
{
    if q < 0 || q >= ts.len() {
        false
    } else if !kind_is(ts, q, TokenKind::Else) {
        r == fail_at::<Expr>(ts, q, "expected 'else'"@)
    } else if q + 1 >= ts.len() {
        false
    } else if kind_is(ts, q + 1, TokenKind::If) {
        q + 2 < ts.len() && exists|re: Parsed<Expr>|
            #[trigger] through(re, q) && parses_if(ts, q + 2, ts[q + 1].span, re) && r == if_result(start, cond, th, re)
    } else if kind_is(ts, q + 1, TokenKind::LBrace) {
        exists|re: Parsed<Expr>|
            #[trigger] through(re, q) && parses_block(ts, q + 1, re) && r == if_result(start, cond, th, re)
    } else {
        r == fail_at::<Expr>(ts, q + 1, "expected 'if' or '{' after 'else'"@)
    }
}

/// A block `{ ... }` from `p`.
pub open spec fn parses_block(ts: Seq<Token>, p: int, r: Parsed<Expr>) -> bool
    decreases ts.len() - p, 10nat,
{
    if p < 0 || p >= ts.len() {
        false
    } else if !kind_is(ts, p, TokenKind::LBrace) {
        r == fail_at::<Expr>(ts, p, "expected '{'"@)
    } else {
        parses_block_body(ts, p + 1, ts[p].span, r)
    }
}

/// The statements, tail and `}` of a block, from right after the `{` whose span is `open`.
pub open spec fn parses_block_body(ts: Seq<Token>, p: int, open: Span, r: Parsed<Expr>) -> bool
    decreases ts.len() - p, 9nat,
{
    exists|rs: Parsed<(Seq<Stmt>, Option<Expr>)>|
        #[trigger] through(rs, p) && parses_seq(ts, p, false, Seq::empty(), rs) && match rs {
            Err(e) => r == Err::<(Expr, int), (Seq<char>, Span)>(e),
            Ok(((sts, tail), q)) => if kind_is(ts, q, TokenKind::RBrace) {
                ends_ok(r, q + 1, |e: Expr| block_expr(e, sts, tail, join(open, ts[q].span)))
            } else {
                r == fail_at::<Expr>(ts, q, "expected '}'"@)
            },
        }
}

/// Statements from `p`, after those in `acc`, up to the end of the sequence (`Eof` when `top`,
/// else `}`), and the expression that ends it without a `;`, if any.
pub open spec fn parses_seq(
    ts: Seq<Token>,
    p: int,
    top: bool,
    acc: Seq<Stmt>,
    r: Parsed<(Seq<Stmt>, Option<Expr>)>,
) -> bool
    decreases ts.len() - p, 8nat,
{
    if p < 0 || p >= ts.len() {
        false
    } else if at_end(ts, p, top) {
        r == Ok::<((Seq<Stmt>, Option<Expr>), int), (Seq<char>, Span)>(((acc, None), p))
    } else if kind_is(ts, p, TokenKind::Let) || kind_is(ts, p, TokenKind::Return) || (kind_is(ts, p, TokenKind::Fn) && top) {
        exists|r1: Parsed<Stmt>|
            #[trigger] through(r1, p) && (if kind_is(ts, p, TokenKind::Let) {
                parses_let(ts, p, r1)
            } else if kind_is(ts, p, TokenKind::Return) {
                parses_return(ts, p, r1)
            } else {
                parses_fn(ts, p, r1)
            }) && match r1 {
                Err(e) => r == Err::<((Seq<Stmt>, Option<Expr>), int), (Seq<char>, Span)>(e),
                Ok((s, q)) => q > p && q < ts.len() && parses_seq(ts, q, top, acc.push(s), r),
            }
    } else if kind_is(ts, p, TokenKind::Fn) {
        r == fail_at::<(Seq<Stmt>, Option<Expr>)>(
            ts,
            p,
            "function declarations are only allowed at top-level (for now)"@,
        )
    } else {
        exists|r1: Parsed<Expr>|
            #[trigger] through(r1, p) && parses_expr(ts, p, 0, r1) && match r1 {
                Err(e) => r == Err::<((Seq<Stmt>, Option<Expr>), int), (Seq<char>, Span)>(e),
                Ok((e, q)) => q > p && if kind_is(ts, q, TokenKind::Equal) {
                    if !assignable(e) {
                        r == Err::<((Seq<Stmt>, Option<Expr>), int), (Seq<char>, Span)>(
                            ("invalid assignment target"@, e.span_of()),
                        )
                    } else {
                        q + 1 < ts.len() && exists|r2: Parsed<Expr>|
                            #[trigger] through(r2, q) && parses_expr(ts, q + 1, 0, r2) && match r2 {
                                Err(x) => r == Err::<((Seq<Stmt>, Option<Expr>), int), (Seq<char>, Span)>(x),
                                Ok((rhs, q2)) => if kind_is(ts, q2, TokenKind::Semicolon) {
                                    q2 > q && q2 + 1 < ts.len() && parses_seq(
                                        ts,
                                        q2 + 1,
                                        top,
                                        acc.push(
                                            Stmt::Assign { target: e, expr: rhs, span: join(e.span_of(), rhs.span_of()) },
                                        ),
                                        r,
                                    )
                                } else {
                                    r == fail_at::<(Seq<Stmt>, Option<Expr>)>(
                                        ts,
                                        q2,
                                        "expected ';' after assignment"@,
                                    )
                                },
                            }
                    }
                } else if kind_is(ts, q, TokenKind::Semicolon) {
                    q + 1 < ts.len() && parses_seq(ts, q + 1, top, acc.push(Stmt::Expr { span: e.span_of(), expr: e }), r)
                } else if at_end(ts, q, top) {
                    r == Ok::<((Seq<Stmt>, Option<Expr>), int), (Seq<char>, Span)>(((acc, Some(e)), q))
                } else {
                    r == Err::<((Seq<Stmt>, Option<Expr>), int), (Seq<char>, Span)>(
                        ("expected ';' after expression"@, e.span_of()),
                    )
                },
            }
    }
}

/// `let name (: Type)? = expr ;` from `p`.
pub open spec fn parses_let(ts: Seq<Token>, p: int, r: Parsed<Stmt>) -> bool
    decreases ts.len() - p, 1nat,
{
    if p < 0 || p + 1 >= ts.len() {
        false
    } else if !kind_is(ts, p, TokenKind::Let) {
        r == fail_at::<Stmt>(ts, p, "expected 'let'"@)
    } else {
        match ts[p + 1].kind {
            TokenKind::Ident(name) => p + 2 < ts.len() && exists|rt: Parsed<Option<TypeExpr>>|
                #[trigger] through(rt, p) && (if kind_is(ts, p + 2, TokenKind::Colon) {
                    p + 3 < ts.len() && exists|t: Parsed<TypeExpr>|
                        #[trigger] through(t, p) && parses_type(ts, p + 3, t) && rt == match t {
                            Err(e) => Err(e),
                            Ok((ty, q)) => Ok((Some(ty), q)),
                        }
                } else {
                    rt == Ok::<(Option<TypeExpr>, int), (Seq<char>, Span)>((None, p + 2))
                }) && match rt {
                    Err(e) => r == Err::<(Stmt, int), (Seq<char>, Span)>(e),
                    Ok((ty, q)) => if !kind_is(ts, q, TokenKind::Equal) {
                        r == fail_at::<Stmt>(ts, q, "expected '=' after identifier"@)
                    } else {
                        q >= p + 2 && q + 1 < ts.len() && exists|re: Parsed<Expr>|
                            #[trigger] through(re, q) && parses_expr(ts, q + 1, 0, re) && match re {
                                Err(e) => r == Err::<(Stmt, int), (Seq<char>, Span)>(e),
                                Ok((e, q2)) => if kind_is(ts, q2, TokenKind::Semicolon) {
                                    r == Ok::<(Stmt, int), (Seq<char>, Span)>(
                                        (
                                            Stmt::Let {
                                                name: name,
                                                ty: ty,
                                                expr: e,
                                                span: join(ts[p].span, e.span_of()),
                                            },
                                            q2 + 1,
                                        ),
                                    )
                                } else {
                                    r == fail_at::<Stmt>(ts, q2, "expected ';' after let statement"@)
                                },
                            }
                    },
                },
            _ => r == fail_at::<Stmt>(ts, p + 1, "expected identifier after 'let'"@),
        }
    }
}

/// `return ;` or `return expr ;` from `p`.
pub open spec fn parses_return(ts: Seq<Token>, p: int, r: Parsed<Stmt>) -> bool
    decreases ts.len() - p, 1nat,
{
    if p < 0 || p + 1 >= ts.len() {
        false
    } else if !kind_is(ts, p, TokenKind::Return) {
        r == fail_at::<Stmt>(ts, p, "expected 'return'"@)
    } else if kind_is(ts, p + 1, TokenKind::Semicolon) {
        r == Ok::<(Stmt, int), (Seq<char>, Span)>(
            (Stmt::Return { expr: None, span: join(ts[p].span, ts[p + 1].span) }, p + 2),
        )
    } else {
        exists|re: Parsed<Expr>|
            #[trigger] through(re, p) && parses_expr(ts, p + 1, 0, re) && match re {
                Err(e) => r == Err::<(Stmt, int), (Seq<char>, Span)>(e),
                Ok((e, q)) => if kind_is(ts, q, TokenKind::Semicolon) {
                    r == Ok::<(Stmt, int), (Seq<char>, Span)>(
                        (Stmt::Return { expr: Some(e), span: join(ts[p].span, ts[q].span) }, q + 1),
                    )
                } else {
                    r == fail_at::<Stmt>(ts, q, "expected ';' after return"@)
                },
            }
    }
}

/// Parameters `name: Type` from `p`, after those in `acc`, separated by commas and ended by
/// `)` (a comma may come before it); the position after is at `)`.
pub open spec fn parses_params(ts: Seq<Token>, p: int, acc: Seq<Param>, r: Parsed<Seq<Param>>) -> bool
    decreases ts.len() - p, 1nat,
{
    if p < 0 || p >= ts.len() {
        false
    } else {
        match ts[p].kind {
            TokenKind::Ident(name) => p + 1 < ts.len() && if !kind_is(ts, p + 1, TokenKind::Colon) {
                r == fail_at::<Seq<Param>>(ts, p + 1, "expected ':' after parameter name"@)
            } else {
                exists|rt: Parsed<TypeExpr>|
                    #[trigger] through(rt, p) && parses_type(ts, p + 2, rt) && match rt {
                        Err(e) => r == Err::<(Seq<Param>, int), (Seq<char>, Span)>(e),
                        Ok((ty, q)) => {
                            let prm = Param { name: name, ty: ty, span: join(ts[p].span, ty.span_of()) };
                            q > p + 2 && if kind_is(ts, q, TokenKind::Comma) {
                                if kind_is(ts, q + 1, TokenKind::RParen) {
                                    r == Ok::<(Seq<Param>, int), (Seq<char>, Span)>((acc.push(prm), q + 1))
                                } else {
                                    q + 1 < ts.len() && parses_params(ts, q + 1, acc.push(prm), r)
                                }
                            } else {
                                r == Ok::<(Seq<Param>, int), (Seq<char>, Span)>((acc.push(prm), q))
                            }
                        },
                    }
            },
            _ => r == fail_at::<Seq<Param>>(ts, p, "expected parameter name"@),
        }
    }
}

/// `fn name ( params ) -> Type { ... }` from `p`.
pub open spec fn parses_fn(ts: Seq<Token>, p: int, r: Parsed<Stmt>) -> bool
    decreases ts.len() - p, 1nat,
{
    if p < 0 || p + 1 >= ts.len() {
        false
    } else if !kind_is(ts, p, TokenKind::Fn) {
        r == fail_at::<Stmt>(ts, p, "expected 'fn'"@)
    } else {
        match ts[p + 1].kind {
            TokenKind::Ident(name) => p + 2 < ts.len() && if !kind_is(ts, p + 2, TokenKind::LParen) {
                r == fail_at::<Stmt>(ts, p + 2, "expected '(' after fn name"@)
            } else {
                p + 3 < ts.len() && exists|rp: Parsed<Seq<Param>>|
                    #[trigger] through(rp, p) && (if kind_is(ts, p + 3, TokenKind::RParen) {
                        rp == Ok::<(Seq<Param>, int), (Seq<char>, Span)>((Seq::empty(), p + 3))
                    } else {
                        parses_params(ts, p + 3, Seq::empty(), rp)
                    }) && match rp {
                        Err(e) => r == Err::<(Stmt, int), (Seq<char>, Span)>(e),
                        Ok((ps, q)) => if !kind_is(ts, q, TokenKind::RParen) {
                            r == fail_at::<Stmt>(ts, q, "expected ')' after parameters"@)
                        } else if q + 1 >= ts.len() {
                            false
                        } else if !kind_is(ts, q + 1, TokenKind::Arrow) {
                            r == fail_at::<Stmt>(ts, q + 1, "expected '->' after parameters"@)
                        } else {
                            q > p && q + 2 < ts.len() && exists|rt: Parsed<TypeExpr>|
                                #[trigger] through(rt, q) && parses_type(ts, q + 2, rt) && match rt {
                                    Err(e) => r == Err::<(Stmt, int), (Seq<char>, Span)>(e),
                                    Ok((ret_ty, q2)) => q2 > q && q2 < ts.len() && exists|rb: Parsed<Expr>|
                                        #[trigger] through(rb, q2) && parses_block(ts, q2, rb) && match rb {
                                            Err(e) => r == Err::<(Stmt, int), (Seq<char>, Span)>(e),
                                            Ok((body, q3)) => ends_ok(
                                                r,
                                                q3,
                                                |st: Stmt| fn_stmt(st, name, ps, ret_ty, body, join(ts[p].span, body.span_of())),
                                            ),
                                        },
                                }
                        },
                    }
            },
            _ => r == fail_at::<Stmt>(ts, p + 1, "expected identifier after 'fn'"@),
        }
    }
}

/// The program that a token list ending with `Eof` parses to: its statements and tail up to
/// `Eof`, or the first error.
pub open spec fn parses_program(ts: Seq<Token>, r: Result<Program, (Seq<char>, Span)>) -> bool {
    exists|rs: Parsed<(Seq<Stmt>, Option<Expr>)>|
        #[trigger] through(rs, 0int) && parses_seq(ts, 0, true, Seq::empty(), rs) && match rs {
            Err(e) => r == Err::<Program, (Seq<char>, Span)>(e),
            Ok(((sts, tail), _)) => match r {
                Ok(prog) => prog.stmts@ == sts && prog.tail == tail,
                Err(_) => false,
            },
        }
}

} // verus!

verus! {

/// How a conditional ends when its condition fails to parse.
#[verifier::spinoff_prover]
pub proof fn lemma_if_cond(ts: Seq<Token>, p: int, start: Span, rc: Parsed<Expr>)
    requires
        parses_expr(ts, p, 0, rc),
        rc is Err,
    ensures
        parses_if(ts, p, start, match rc {
            Err(e) => Err(e),
            Ok(_) => rc,
        }),
{
    assert(through(rc, p));
}

/// How a conditional ends when its first block fails to parse.
#[verifier::spinoff_prover]
pub proof fn lemma_if_then_err(ts: Seq<Token>, p: int, start: Span, c: Expr, q1: int, e: (Seq<char>, Span))
    requires
        parses_expr(ts, p, 0, Ok((c, q1))),
        q1 > p,
        q1 < ts.len(),
        parses_block(ts, q1, Err(e)),
    ensures
        parses_if(ts, p, start, Err(e)),
{
    let rc = Ok::<(Expr, int), (Seq<char>, Span)>((c, q1));
    let rt = Err::<(Expr, int), (Seq<char>, Span)>(e);
    assert(through(rt, q1) && parses_block(ts, q1, rt));
    assert(through(rc, p) && parses_expr(ts, p, 0, rc));
    assert(rt is Err);
    assert(rc matches Ok((cc, qq)) && cc == c && qq == q1);
    assert(exists|rt2: Parsed<Expr>| #[trigger] through(rt2, q1) && parses_block(ts, q1, rt2) && match rt2 {
        Err(e2) => Err::<(Expr, int), (Seq<char>, Span)>(e) == Err::<(Expr, int), (Seq<char>, Span)>(e2),
        Ok(_) => false,
    });
}

/// How a conditional ends once its condition and first block have parsed.
#[verifier::spinoff_prover]
pub proof fn lemma_if_else(ts: Seq<Token>, p: int, start: Span, c: Expr, q1: int, th: Expr, q2: int, r: Parsed<Expr>)
    requires
        parses_expr(ts, p, 0, Ok((c, q1))),
        q1 > p,
        q1 < ts.len(),
        parses_block(ts, q1, Ok((th, q2))),
        q2 > q1,
        parses_else(ts, q2, start, c, th, r),
    ensures
        parses_if(ts, p, start, r),
{
    let rc = Ok::<(Expr, int), (Seq<char>, Span)>((c, q1));
    let rt = Ok::<(Expr, int), (Seq<char>, Span)>((th, q2));
    assert(through(rc, p) && parses_expr(ts, p, 0, rc));
    assert(q2 < ts.len());
    assert(exists|rt2: Parsed<Expr>| #[trigger] through(rt2, q1) && parses_block(ts, q1, rt2) && match rt2 {
        Ok((th2, q22)) => q22 > q1 && q22 < ts.len() && parses_else(ts, q22, start, c, th2, r),
        Err(_) => false,
    }) by {
        assert(through(rt, q1));
    }
    assert(exists|rc2: Parsed<Expr>| #[trigger] through(rc2, p) && parses_expr(ts, p, 0, rc2) && match rc2 {
        Ok((c2, q12)) => q12 > p && q12 < ts.len() && exists|rt2: Parsed<Expr>| #[trigger] through(rt2, q12) && parses_block(ts, q12, rt2) && match rt2 {
            Ok((th2, q22)) => q22 > q12 && q22 < ts.len() && parses_else(ts, q22, start, c2, th2, r),
            Err(_) => false,
        },
        Err(_) => false,
    });
}


/// The operands and operator of a binary expression.
pub open spec fn split_binary(e: Expr) -> Option<(Expr, BinaryOp, Expr)> {
    match e {
        Expr::Binary { lhs, op, rhs, .. } => Some((*lhs, op, *rhs)),
        _ => None,
    }
}

/// An integer literal at `p`, followed by a token that continues no call or index: the
/// expression from `p` is that literal, then the operators that follow it.
proof fn lemma_int_operand(ts: Seq<Token>, p: int, min: u8, x: i64, r: Parsed<Expr>)
    requires
        0 <= p,
        p + 1 < ts.len(),
        ts[p].kind == TokenKind::Int(x),
        !(ts[p + 1].kind is LParen),
        !(ts[p + 1].kind is LBracket),
        parses_expr(ts, p, min, r),
    ensures
        parses_infix(ts, p + 1, min, Expr::Int(x, ts[p].span), r),
{
    let r1 = choose|r1: Parsed<Expr>| #[trigger] through(r1, p) && parses_prefix(ts, p, r1) && match r1 {
        Err(e) => r == Err::<(Expr, int), (Seq<char>, Span)>(e),
        Ok((e0, q0)) => q0 > p && q0 < ts.len() && exists|r2: Parsed<Expr>|
            #[trigger] through(r2, q0) && parses_postfix(ts, q0, e0, r2) && match r2 {
                Err(e) => r == Err::<(Expr, int), (Seq<char>, Span)>(e),
                Ok((e1, q1)) => q1 >= q0 && q1 < ts.len() && parses_infix(ts, q1, min, e1, r),
            },
    };
    assert(r1 == Ok::<(Expr, int), (Seq<char>, Span)>((Expr::Int(x, ts[p].span), p + 1)));
    let r2 = choose|r2: Parsed<Expr>|
        #[trigger] through(r2, p + 1) && parses_postfix(ts, p + 1, Expr::Int(x, ts[p].span), r2) && match r2 {
            Err(e) => r == Err::<(Expr, int), (Seq<char>, Span)>(e),
            Ok((e1, q1)) => q1 >= p + 1 && q1 < ts.len() && parses_infix(ts, q1, min, e1, r),
        };
    assert(!kind_is(ts, p + 1, TokenKind::LParen));
    assert(!kind_is(ts, p + 1, TokenKind::LBracket));
}

/// Operators stop at a token that is no operator, or one that binds looser than `min`.
proof fn lemma_infix_stops(ts: Seq<Token>, q: int, min: u8, lhs: Expr, r: Parsed<Expr>)
    requires
        0 <= q < ts.len(),
        infix_of(ts[q].kind) is None || infix_of(ts[q].kind)->Some_0.1 < min,
        parses_infix(ts, q, min, lhs, r),
    ensures
        r == Ok::<(Expr, int), (Seq<char>, Span)>((lhs, q)),
{
}

/// Binding power decides how `a op1 b op2 c` groups, for any integer operands and any two
/// binary operators: when `op2` binds tighter than `op1`, as `*` does than `-`, the
/// expression is `a op1 (b op2 c)`; otherwise, as for `a - b + c`, it is `(a op1 b) op2 c`.
pub proof fn lemma_precedence_groups(ts: Seq<Token>, a: i64, b: i64, c: i64, r: Parsed<Expr>)
    requires
        ts.len() > 5,
        ts[0].kind == TokenKind::Int(a),
        infix_of(ts[1].kind) is Some,
        ts[2].kind == TokenKind::Int(b),
        infix_of(ts[3].kind) is Some,
        ts[4].kind == TokenKind::Int(c),
        infix_of(ts[5].kind) is None,
        !(ts[5].kind is LParen),
        !(ts[5].kind is LBracket),
        parses_expr(ts, 0, 0, r),
    ensures
        ({
            let (op1, p1) = infix_of(ts[1].kind)->Some_0;
            let (op2, p2) = infix_of(ts[3].kind)->Some_0;
            let ea = Expr::Int(a, ts[0].span);
            let eb = Expr::Int(b, ts[2].span);
            let ec = Expr::Int(c, ts[4].span);
            let e = r->Ok_0.0;
            &&& r is Ok
            &&& r->Ok_0.1 == 5
            &&& p2 > p1 ==> split_binary(e) is Some && split_binary(e)->Some_0.0 == ea && split_binary(e)->Some_0.1
                == op1 && split_binary(split_binary(e)->Some_0.2) == Some((eb, op2, ec))
            &&& p2 <= p1 ==> split_binary(e) is Some && split_binary(e)->Some_0.1 == op2 && split_binary(e)->Some_0.2
                == ec && split_binary(split_binary(e)->Some_0.0) == Some((ea, op1, eb))
        }),
{
    let (op1, p1) = infix_of(ts[1].kind)->Some_0;
    let (op2, p2) = infix_of(ts[3].kind)->Some_0;
    let ea = Expr::Int(a, ts[0].span);
    let eb = Expr::Int(b, ts[2].span);
    let ec = Expr::Int(c, ts[4].span);
    assert(!(ts[1].kind is LParen) && !(ts[1].kind is LBracket));
    assert(!(ts[3].kind is LParen) && !(ts[3].kind is LBracket));
    lemma_int_operand(ts, 0, 0, a, r);
    // The operator at 1 binds at least as tightly as 0: its right operand starts at 2.
    let r1 = choose|r1: Parsed<Expr>|
        #[trigger] through(r1, 1int) && parses_expr(ts, 2, (p1 + 1) as u8, r1) && match r1 {
            Err(e) => r == Err::<(Expr, int), (Seq<char>, Span)>(e),
            Ok((rhs, q)) => q > 1 && q < ts.len() && parses_infix(
                ts,
                q,
                0,
                Expr::Binary {
                    lhs: Box::new(ea),
                    op: op1,
                    rhs: Box::new(rhs),
                    span: join(join(ea.span_of(), rhs.span_of()), ts[1].span),
                },
                r,
            ),
        };
    lemma_int_operand(ts, 2, (p1 + 1) as u8, b, r1);
    if p2 > p1 {
        let r3 = choose|r3: Parsed<Expr>|
            #[trigger] through(r3, 3int) && parses_expr(ts, 4, (p2 + 1) as u8, r3) && match r3 {
                Err(e) => r1 == Err::<(Expr, int), (Seq<char>, Span)>(e),
                Ok((rhs, q)) => q > 3 && q < ts.len() && parses_infix(
                    ts,
                    q,
                    (p1 + 1) as u8,
                    Expr::Binary {
                        lhs: Box::new(eb),
                        op: op2,
                        rhs: Box::new(rhs),
                        span: join(join(eb.span_of(), rhs.span_of()), ts[3].span),
                    },
                    r1,
                ),
            };
        lemma_int_operand(ts, 4, (p2 + 1) as u8, c, r3);
        lemma_infix_stops(ts, 5, (p2 + 1) as u8, ec, r3);
        let inner = Expr::Binary {
            lhs: Box::new(eb),
            op: op2,
            rhs: Box::new(ec),
            span: join(join(eb.span_of(), ec.span_of()), ts[3].span),
        };
        lemma_infix_stops(ts, 5, (p1 + 1) as u8, inner, r1);
        let outer = Expr::Binary {
            lhs: Box::new(ea),
            op: op1,
            rhs: Box::new(inner),
            span: join(join(ea.span_of(), inner.span_of()), ts[1].span),
        };
        lemma_infix_stops(ts, 5, 0, outer, r);
    } else {
        lemma_infix_stops(ts, 3, (p1 + 1) as u8, eb, r1);
        let left = Expr::Binary {
            lhs: Box::new(ea),
            op: op1,
            rhs: Box::new(eb),
            span: join(join(ea.span_of(), eb.span_of()), ts[1].span),
        };
        let r3 = choose|r3: Parsed<Expr>|
            #[trigger] through(r3, 3int) && parses_expr(ts, 4, (p2 + 1) as u8, r3) && match r3 {
                Err(e) => r == Err::<(Expr, int), (Seq<char>, Span)>(e),
                Ok((rhs, q)) => q > 3 && q < ts.len() && parses_infix(
                    ts,
                    q,
                    0,
                    Expr::Binary {
                        lhs: Box::new(left),
                        op: op2,
                        rhs: Box::new(rhs),
                        span: join(join(left.span_of(), rhs.span_of()), ts[3].span),
                    },
                    r,
                ),
            };
        lemma_int_operand(ts, 4, (p2 + 1) as u8, c, r3);
        lemma_infix_stops(ts, 5, (p2 + 1) as u8, ec, r3);
        let outer = Expr::Binary {
            lhs: Box::new(left),
            op: op2,
            rhs: Box::new(ec),
            span: join(join(left.span_of(), ec.span_of()), ts[3].span),
        };
        lemma_infix_stops(ts, 5, 0, outer, r);
    }
}


/// A program of one expression `a op1 b op2 c` of integer literals parses to no statement
/// and that expression as its tail, grouped by binding power as `lemma_precedence_groups`
/// says.
pub proof fn lemma_program_of_two_operators(
    ts: Seq<Token>,
    a: i64,
    b: i64,
    c: i64,
    r: Result<Program, (Seq<char>, Span)>,
)
    requires
        ts.len() > 5,
        ts[0].kind == TokenKind::Int(a),
        infix_of(ts[1].kind) is Some,
        ts[2].kind == TokenKind::Int(b),
        infix_of(ts[3].kind) is Some,
        ts[4].kind == TokenKind::Int(c),
        ts[5].kind is Eof,
        parses_program(ts, r),
    ensures
        r is Ok,
        r->Ok_0.stmts@.len() == 0,
        r->Ok_0.tail is Some,
        exists|re: Parsed<Expr>| parses_expr(ts, 0, 0, re) && re == Ok::<(Expr, int), (Seq<char>, Span)>((r->Ok_0.tail->Some_0, 5)),
{
    let rs = choose|rs: Parsed<(Seq<Stmt>, Option<Expr>)>|
        #[trigger] through(rs, 0int) && parses_seq(ts, 0, true, Seq::empty(), rs) && match rs {
            Err(e) => r == Err::<Program, (Seq<char>, Span)>(e),
            Ok(((sts, tail), _)) => match r {
                Ok(prog) => prog.stmts@ == sts && prog.tail == tail,
                Err(_) => false,
            },
        };
    assert(!at_end(ts, 0, true));
    assert(!kind_is(ts, 0, TokenKind::Let) && !kind_is(ts, 0, TokenKind::Return) && !kind_is(ts, 0, TokenKind::Fn));
    let r1 = choose|r1: Parsed<Expr>|
        #[trigger] through(r1, 0int) && parses_expr(ts, 0, 0, r1) && match r1 {
            Err(e) => rs == Err::<((Seq<Stmt>, Option<Expr>), int), (Seq<char>, Span)>(e),
            Ok((e, q)) => q > 0 && if kind_is(ts, q, TokenKind::Equal) {
                if !assignable(e) {
                    rs == Err::<((Seq<Stmt>, Option<Expr>), int), (Seq<char>, Span)>(
                        ("invalid assignment target"@, e.span_of()),
                    )
                } else {
                    q + 1 < ts.len() && exists|r2: Parsed<Expr>|
                        #[trigger] through(r2, q) && parses_expr(ts, q + 1, 0, r2) && match r2 {
                            Err(x) => rs == Err::<((Seq<Stmt>, Option<Expr>), int), (Seq<char>, Span)>(x),
                            Ok((rhs, q2)) => if kind_is(ts, q2, TokenKind::Semicolon) {
                                q2 > q && q2 + 1 < ts.len() && parses_seq(
                                    ts,
                                    q2 + 1,
                                    true,
                                    Seq::<Stmt>::empty().push(
                                        Stmt::Assign { target: e, expr: rhs, span: join(e.span_of(), rhs.span_of()) },
                                    ),
                                    rs,
                                )
                            } else {
                                rs == fail_at::<(Seq<Stmt>, Option<Expr>)>(
                                    ts,
                                    q2,
                                    "expected ';' after assignment"@,
                                )
                            },
                        }
                }
            } else if kind_is(ts, q, TokenKind::Semicolon) {
                q + 1 < ts.len() && parses_seq(
                    ts,
                    q + 1,
                    true,
                    Seq::<Stmt>::empty().push(Stmt::Expr { span: e.span_of(), expr: e }),
                    rs,
                )
            } else if at_end(ts, q, true) {
                rs == Ok::<((Seq<Stmt>, Option<Expr>), int), (Seq<char>, Span)>(((Seq::<Stmt>::empty(), Some(e)), q))
            } else {
                rs == Err::<((Seq<Stmt>, Option<Expr>), int), (Seq<char>, Span)>(
                    ("expected ';' after expression"@, e.span_of()),
                )
            },
        };
    lemma_precedence_groups(ts, a, b, c, r1);
    assert(!kind_is(ts, 5, TokenKind::Equal) && !kind_is(ts, 5, TokenKind::Semicolon));
}

/// Subtraction groups like addition: in `a - b * c` (also `/`, `%`) the product binds
/// first, giving `a - (b * c)`, while `a - b + c` and `a - b - c` group from the left,
/// giving `(a - b) + c` and `(a - b) - c`.
pub proof fn lemma_subtraction_grouping(ts: Seq<Token>, a: i64, b: i64, c: i64, r: Result<Program, (Seq<char>, Span)>)
    requires
        ts.len() > 5,
        ts[0].kind == TokenKind::Int(a),
        ts[1].kind is Minus,
        ts[2].kind == TokenKind::Int(b),
        ts[3].kind is Star || ts[3].kind is Slash || ts[3].kind is Percent || ts[3].kind is Plus || ts[3].kind is Minus,
        ts[4].kind == TokenKind::Int(c),
        ts[5].kind is Eof,
        parses_program(ts, r),
    ensures
        r is Ok,
        r->Ok_0.stmts@.len() == 0,
        r->Ok_0.tail is Some,
        ({
            let e = r->Ok_0.tail->Some_0;
            let ea = Expr::Int(a, ts[0].span);
            let eb = Expr::Int(b, ts[2].span);
            let ec = Expr::Int(c, ts[4].span);
            let op2 = infix_of(ts[3].kind)->Some_0.0;
            &&& ts[3].kind is Star ==> op2 is Mul
            &&& ts[3].kind is Plus ==> op2 is Add
            &&& ts[3].kind is Minus ==> op2 is Sub
            &&& (ts[3].kind is Star || ts[3].kind is Slash || ts[3].kind is Percent) ==> split_binary(e) is Some
                && split_binary(e)->Some_0.0 == ea && split_binary(e)->Some_0.1 is Sub && split_binary(
                split_binary(e)->Some_0.2,
            ) == Some((eb, op2, ec))
            &&& (ts[3].kind is Plus || ts[3].kind is Minus) ==> split_binary(e) is Some && split_binary(e)->Some_0.1
                == op2 && split_binary(e)->Some_0.2 == ec && split_binary(split_binary(e)->Some_0.0) is Some
                && split_binary(split_binary(e)->Some_0.0)->Some_0.0 == ea && split_binary(
                split_binary(e)->Some_0.0,
            )->Some_0.1 is Sub && split_binary(split_binary(e)->Some_0.0)->Some_0.2 == eb
        }),
{
    lemma_program_of_two_operators(ts, a, b, c, r);
    let re = choose|re: Parsed<Expr>|
        parses_expr(ts, 0, 0, re) && re == Ok::<(Expr, int), (Seq<char>, Span)>((r->Ok_0.tail->Some_0, 5));
    lemma_precedence_groups(ts, a, b, c, re);
}


/// A prefix `-` binds tighter than every binary operator: `-a op b` is `(-a) op b`.
pub proof fn lemma_negation_binds_tightest(ts: Seq<Token>, a: i64, b: i64, r: Parsed<Expr>)
    requires
        ts.len() > 4,
        ts[0].kind is Minus,
        ts[1].kind == TokenKind::Int(a),
        infix_of(ts[2].kind) is Some,
        ts[3].kind == TokenKind::Int(b),
        infix_of(ts[4].kind) is None,
        !(ts[4].kind is LParen),
        !(ts[4].kind is LBracket),
        parses_expr(ts, 0, 0, r),
    ensures
        ({
            let e = r->Ok_0.0;
            let op = infix_of(ts[2].kind)->Some_0.0;
            &&& r is Ok
            &&& r->Ok_0.1 == 4
            &&& split_binary(e) is Some
            &&& split_binary(e)->Some_0.1 == op
            &&& split_binary(e)->Some_0.2 == Expr::Int(b, ts[3].span)
            &&& split_binary(e)->Some_0.0 matches Expr::Unary { op: u, expr: inner, .. } && u is Neg && *inner
                == Expr::Int(a, ts[1].span)
        }),
{
    let (op, prec) = infix_of(ts[2].kind)->Some_0;
    assert(!(ts[2].kind is LParen) && !(ts[2].kind is LBracket));
    assert(prec < 7);
    let r1 = choose|r1: Parsed<Expr>| #[trigger] through(r1, 0int) && parses_prefix(ts, 0, r1) && match r1 {
        Err(e) => r == Err::<(Expr, int), (Seq<char>, Span)>(e),
        Ok((e0, q0)) => q0 > 0 && q0 < ts.len() && exists|r2: Parsed<Expr>|
            #[trigger] through(r2, q0) && parses_postfix(ts, q0, e0, r2) && match r2 {
                Err(e) => r == Err::<(Expr, int), (Seq<char>, Span)>(e),
                Ok((e1, q1)) => q1 >= q0 && q1 < ts.len() && parses_infix(ts, q1, 0, e1, r),
            },
    };
    let ri = choose|ri: Parsed<Expr>|
        #[trigger] through(ri, 0int) && parses_expr(ts, 1, 7, ri) && r1 == unary_result(UnaryOp::Neg, ts[0].span, ri);
    lemma_int_operand(ts, 1, 7, a, ri);
    lemma_infix_stops(ts, 2, 7, Expr::Int(a, ts[1].span), ri);
    let neg = Expr::Unary {
        op: UnaryOp::Neg,
        span: join(ts[0].span, ts[1].span),
        expr: Box::new(Expr::Int(a, ts[1].span)),
    };
    assert(r1 == Ok::<(Expr, int), (Seq<char>, Span)>((neg, 2)));
    let r2 = choose|r2: Parsed<Expr>|
        #[trigger] through(r2, 2int) && parses_postfix(ts, 2, neg, r2) && match r2 {
            Err(e) => r == Err::<(Expr, int), (Seq<char>, Span)>(e),
            Ok((e1, q1)) => q1 >= 2 && q1 < ts.len() && parses_infix(ts, q1, 0, e1, r),
        };
    assert(!kind_is(ts, 2, TokenKind::LParen) && !kind_is(ts, 2, TokenKind::LBracket));
    let r3 = choose|r3: Parsed<Expr>|
        #[trigger] through(r3, 2int) && parses_expr(ts, 3, (prec + 1) as u8, r3) && match r3 {
            Err(e) => r == Err::<(Expr, int), (Seq<char>, Span)>(e),
            Ok((rhs, q)) => q > 2 && q < ts.len() && parses_infix(
                ts,
                q,
                0,
                Expr::Binary {
                    lhs: Box::new(neg),
                    op: op,
                    rhs: Box::new(rhs),
                    span: join(join(neg.span_of(), rhs.span_of()), ts[2].span),
                },
                r,
            ),
        };
    lemma_int_operand(ts, 3, (prec + 1) as u8, b, r3);
    lemma_infix_stops(ts, 4, (prec + 1) as u8, Expr::Int(b, ts[3].span), r3);
    let whole = Expr::Binary {
        lhs: Box::new(neg),
        op: op,
        rhs: Box::new(Expr::Int(b, ts[3].span)),
        span: join(join(neg.span_of(), ts[3].span), ts[2].span),
    };
    lemma_infix_stops(ts, 4, 0, whole, r);
}

} // verus!
