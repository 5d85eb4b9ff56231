use vstd::prelude::*;
use crate::access::{index_spec, write_err, write_ok, write_spec};
use crate::ast::{BinaryOp, Expr, Param, Program, Stmt, UnaryOp};
use crate::heap::{ObjectView, collected, newly_freed};
use crate::interp::{ValueVars, assign_value, lookup_value};
use crate::ops::{
    binary_defined, binary_result, binary_spec, lemma_equality_ops, lemma_int_comparison_is_bool, lemma_int_comparisons,
    unary_spec,
};
use crate::span::Span;
use crate::text::decimal;
use crate::value::{GcRef, Value};

verus! {

/// How evaluation of a statement or expression ended: with a value, or with a `return`
/// that is unwinding to the enclosing call, with the span of the `return`.
pub enum Exec {
    Value(Value),
    Return(Value, Span),
}

/// The result of evaluating a statement or expression: `Err` carries the message and the
/// span of the runtime error.
pub type Outcome = Result<Exec, (Seq<char>, Span)>;

/// What evaluation reads and changes: the variables, the scopes of suspended callers, the
/// live heap objects, the number of heap slots handed out so far, and the freed slots that
/// allocation takes again (the last one first).
pub struct State {
    pub vars: ValueVars,
    pub saved: Seq<Seq<Map<Seq<char>, Value>>>,
    pub heap: Map<usize, ObjectView>,
    pub slots: nat,
    pub free: Seq<usize>,
}

/// How the evaluation of a list of expressions ended: all values, or the first outcome
/// that stopped it (a `return` or an error).
pub enum ListOut {
    Done(Seq<Value>),
    Stopped(Outcome),
}

/// Always true: names the intermediate state and outcome of an evaluation step, so that a
/// proof can point at them.
pub open spec fn through<A, B>(a: A, b: B) -> bool {
    true
}

/// The outcome stops the evaluation around it: it is a `return` or an error.
pub open spec fn stops(o: Outcome) -> bool {
    !(o matches Ok(Exec::Value(_)))
}

/// The value of an outcome that does not stop.
pub open spec fn val(o: Outcome) -> Value {
    match o {
        Ok(Exec::Value(v)) => v,
        _ => Value::Unit,
    }
}

pub open spec fn ok_value(v: Value) -> Outcome {
    Ok(Exec::Value(v))
}

pub open spec fn error(m: Seq<char>, span: Span) -> Outcome {
    Err((m, span))
}

/// The state at the start of a program: no variables, no frames, an empty heap.
pub open spec fn initial_state() -> State {
    State {
        vars: (Map::empty(), Seq::empty()),
        saved: Seq::empty(),
        heap: Map::empty(),
        slots: 0,
        free: Seq::empty(),
    }
}

/// The top-level functions of a list of statements: name, parameter names and index of the
/// declaration; a later declaration of a name replaces an earlier one.
pub open spec fn decl_fns(sts: Seq<Stmt>) -> Map<Seq<char>, (Seq<Seq<char>>, nat)>
    decreases sts.len(),
{
    if sts.len() == 0 {
        Map::empty()
    } else {
        let m = decl_fns(sts.drop_last());
        match sts.last() {
            Stmt::Fn { name, params, .. } => m.insert(
                name@,
                (params@.map_values(|q: Param| q.name@), (sts.len() - 1) as nat),
            ),
            _ => m,
        }
    }
}

/// The top-level functions of a program.
pub open spec fn fns(p: Program) -> Map<Seq<char>, (Seq<Seq<char>>, nat)> {
    decl_fns(p.stmts@)
}

/// `v` bound in the innermost scope, or among the globals at top level.
pub open spec fn define_in(v: ValueVars, name: Seq<char>, x: Value) -> ValueVars {
    if v.1.len() == 0 {
        (v.0.insert(name, x), v.1)
    } else {
        (v.0, v.1.update(v.1.len() - 1, v.1.last().insert(name, x)))
    }
}

pub open spec fn with_vars(s: State, v: ValueVars) -> State {
    State { vars: v, ..s }
}

/// A new, empty innermost scope.
pub open spec fn push_scope(s: State) -> State {
    with_vars(s, (s.vars.0, s.vars.1.push(Map::empty())))
}

/// The innermost scope closed.
pub open spec fn pop_scope(s: State) -> State {
    if s.vars.1.len() > 0 {
        with_vars(s, (s.vars.0, s.vars.1.drop_last()))
    } else {
        s
    }
}

/// The scope of a call: each parameter bound to its argument, in order.
pub open spec fn bind(names: Seq<Seq<char>>, vals: Seq<Value>) -> Map<Seq<char>, Value>
    decreases names.len(),
{
    if names.len() == 0 || vals.len() == 0 {
        Map::empty()
    } else {
        bind(names.drop_last(), vals.drop_last()).insert(names.last(), vals.last())
    }
}

/// The state in which a function body runs: the caller's scopes are suspended and only
/// the globals and the parameters are visible.
pub open spec fn enter(s: State, names: Seq<Seq<char>>, vals: Seq<Value>) -> State {
    State {
        vars: (s.vars.0, seq![bind(names, vals)]),
        saved: s.saved.push(s.vars.1),
        heap: s.heap,
        slots: s.slots,
        free: s.free,
    }
}

/// The state after a call returns: the caller's scopes again, with the globals and heap
/// that the body left.
pub open spec fn leave(caller: State, body: State) -> State {
    State {
        vars: (body.vars.0, caller.vars.1),
        saved: caller.saved,
        heap: body.heap,
        slots: body.slots,
        free: body.free,
    }
}

/// The map that an object literal builds from its keys and the values of its properties.
pub open spec fn object_map(props: Seq<(String, Expr)>, vals: Seq<Value>) -> Map<Seq<char>, Value>
    decreases props.len(),
{
    if props.len() == 0 || vals.len() == 0 {
        Map::empty()
    } else {
        object_map(props.drop_last(), vals.drop_last()).insert(props.last().0@, vals.last())
    }
}

/// The slot that the next allocation takes: the slot freed last, if any, else a new one.
pub open spec fn next_free(s: State) -> usize {
    if s.free.len() > 0 {
        s.free.last()
    } else {
        s.slots as usize
    }
}

/// A fresh heap object: `t` holds `obj` in the slot that `next_free` picks, and `o` refers
/// to it.
pub open spec fn allocates(s: State, obj: ObjectView, array: bool, o: Outcome, t: State) -> bool {
    let h = next_free(s);
    &&& t == (State {
        heap: s.heap.insert(h, obj),
        slots: if s.free.len() > 0 {
            s.slots
        } else {
            s.slots + 1
        },
        free: if s.free.len() > 0 {
            s.free.drop_last()
        } else {
            s.free
        },
        ..s
    })
    &&& o == ok_value(
        if array {
            Value::Array(GcRef(h))
        } else {
            Value::Object(GcRef(h))
        },
    )
}

/// Some key of `m` holds `x`.
pub open spec fn has_value(m: Map<Seq<char>, Value>, x: Value) -> bool {
    exists|k: Seq<char>| #[trigger] m.contains_key(k) && m[k] == x
}

/// `x` is held by a global, a variable in scope or a variable of a suspended caller.
pub open spec fn held(s: State, x: Value) -> bool {
    ||| has_value(s.vars.0, x)
    ||| exists|j: int| 0 <= j < s.vars.1.len() && #[trigger] has_value(s.vars.1[j], x)
    ||| exists|f: int, j: int|
        0 <= f < s.saved.len() && 0 <= j < s.saved[f].len() && #[trigger] has_value(s.saved[f][j], x)
}

/// `r` lists exactly the values that the variables hold.
pub open spec fn gc_roots(s: State, r: Seq<Value>) -> bool {
    &&& forall|x: Value| #[trigger] held(s, x) ==> r.contains(x)
    &&& forall|i: int| 0 <= i < r.len() ==> held(s, #[trigger] r[i])
}

/// A collection: the heap keeps what the variables reach, nothing else changes.
pub open spec fn collects(s: State, t: State) -> bool {
    &&& t.vars == s.vars
    &&& t.saved == s.saved
    &&& t.slots == s.slots
    &&& exists|r: Seq<Value>| gc_roots(s, r) && t.heap == #[trigger] collected(s.heap, r)
    &&& t.free == s.free + newly_freed(s.heap, t.heap, s.slots)
}

/// The outcome of reading a name: a variable, else a function, else an error.
pub open spec fn ident_out(p: Program, s: State, name: String, span: Span) -> Outcome {
    match lookup_value(s.vars, name@) {
        Some(v) => ok_value(v),
        None => if fns(p).contains_key(name@) || name@ == "gc"@ {
            ok_value(Value::Function(name))
        } else {
            error("undefined variable: "@ + name@, span)
        },
    }
}

/// The outcome of a unary operator on a value.
pub open spec fn unary_out(op: UnaryOp, v: Value, span: Span) -> Outcome {
    match unary_spec(op, v) {
        Ok(x) => ok_value(x),
        Err(m) => error(m, span),
    }
}

/// `o` is the outcome of a binary operator on two values (the right operand of `&&` and
/// `||` included).
pub open spec fn binary_out(op: BinaryOp, l: Value, r: Value, span: Span, o: Outcome) -> bool {
    match op {
        BinaryOp::And => o == match r {
            Value::Bool(b) => ok_value(Value::Bool(b)),
            _ => error("right side of '&&' must be bool, got "@ + r.debug(), span),
        },
        BinaryOp::Or => o == match r {
            Value::Bool(b) => ok_value(Value::Bool(b)),
            _ => error("right side of '||' must be bool, got "@ + r.debug(), span),
        },
        _ => if binary_defined(op, l, r) {
            o matches Ok(Exec::Value(v)) && binary_result(op, l, r, v)
        } else {
            o matches Err((m, sp)) && binary_spec(op, l, r) == Err::<Value, Seq<char>>(m) && sp == span
        },
    }
}

/// The outcome of a read through `base[index]`.
pub open spec fn index_out(s: State, base: Value, index: Value, span: Span) -> Outcome {
    match index_spec(s.heap, base, index) {
        Ok(v) => ok_value(v),
        Err(m) => error(m, span),
    }
}

/// The message of a call with the wrong number of arguments.
pub open spec fn arity_msg(name: Seq<char>, expected: nat, got: nat) -> Seq<char> {
    "wrong number of arguments for "@ + name + ": expected "@ + decimal(expected) + ", got "@ + decimal(got)
}

/// The value a call gives for the outcome of its body: a `return` ends the call.
pub open spec fn call_result(o: Outcome) -> Outcome {
    match o {
        Ok(Exec::Value(v)) => ok_value(v),
        Ok(Exec::Return(v, _)) => ok_value(v),
        Err(e) => Err(e),
    }
}

/// Evaluating `e` in state `s`, with `f` calls still allowed to nest, can end with outcome
/// `o` in state `t`. The outcome is fixed but for the text of strings: a string that `+`
/// builds is fixed by its text, not as a `String` value.
pub open spec fn evals(p: Program, f: nat, s: State, e: Expr, o: Outcome, t: State) -> bool
    decreases f, e, 2nat,
{
    match e {
        Expr::Int(i, _) => o == ok_value(Value::Int(i)) && t == s,
        Expr::Bool(b, _) => o == ok_value(Value::Bool(b)) && t == s,
        Expr::String(x, _) => o == ok_value(Value::String(x)) && t == s,
        Expr::Ident(name, span) => o == ident_out(p, s, name, span) && t == s,
        Expr::Array { elements, .. } => exists|m: State, lo: ListOut|
            #[trigger] through(m, lo) && evals_list(p, f, s, elements@, lo, m) && match lo {
                ListOut::Stopped(so) => o == so && t == m,
                ListOut::Done(vs) => allocates(m, ObjectView::Array(vs), true, o, t),
            },
        Expr::Object { props, .. } => exists|m: State, lo: ListOut|
            #[trigger] through(m, lo) && evals_props(p, f, s, props@, lo, m) && match lo {
                ListOut::Stopped(so) => o == so && t == m,
                ListOut::Done(vs) => allocates(m, ObjectView::Object(object_map(props@, vs)), false, o, t),
            },
        Expr::Group { expr, .. } => evals(p, f, s, *expr, o, t),
        Expr::Block { stmts, tail, .. } => exists|m: State, so: Outcome|
            #[trigger] through(m, so) && evals_stmts(p, f, push_scope(s), stmts@, so, m) && if stops(so) {
                o == so && t == pop_scope(m)
            } else {
                match tail {
                    None => o == ok_value(Value::Unit) && t == pop_scope(m),
                    Some(te) => exists|m2: State| #[trigger] through(m2, o) && evals(p, f, m, *te, o, m2) && t == pop_scope(m2),
                }
            },
        Expr::If { cond, then_branch, else_branch, span } => exists|m: State, oc: Outcome|
            #[trigger] through(m, oc) && evals(p, f, s, *cond, oc, m) && if stops(oc) {
                o == oc && t == m
            } else {
                match val(oc) {
                    Value::Bool(b) => if b {
                        evals(p, f, m, *then_branch, o, t)
                    } else {
                        evals(p, f, m, *else_branch, o, t)
                    },
                    v => o == error("if condition must be bool, got "@ + v.debug(), span) && t == m,
                }
            },
        Expr::Unary { op, expr, span } => exists|m: State, oi: Outcome|
            #[trigger] through(m, oi) && evals(p, f, s, *expr, oi, m) && t == m && if stops(oi) {
                o == oi
            } else {
                o == unary_out(op, val(oi), span)
            },
        Expr::Index { target, index, span } => exists|m: State, ob: Outcome|
            #[trigger] through(m, ob) && evals(p, f, s, *target, ob, m) && if stops(ob) {
                o == ob && t == m
            } else {
                exists|m2: State, oi: Outcome|
                    #[trigger] through(m2, oi) && evals(p, f, m, *index, oi, m2) && t == m2 && if stops(oi) {
                        o == oi
                    } else {
                        o == index_out(m2, val(ob), val(oi), span)
                    }
            },
        Expr::Binary { lhs, op, rhs, span } => exists|m: State, ol: Outcome|
            #[trigger] through(m, ol) && evals(p, f, s, *lhs, ol, m) && if stops(ol) {
                o == ol && t == m
            } else {
                let l = val(ol);
                if op == BinaryOp::And && !(l is Bool) {
                    o == error("left side of '&&' must be bool, got "@ + l.debug(), span) && t == m
                } else if op == BinaryOp::Or && !(l is Bool) {
                    o == error("left side of '||' must be bool, got "@ + l.debug(), span) && t == m
                } else if op == BinaryOp::And && l == Value::Bool(false) {
                    o == ok_value(Value::Bool(false)) && t == m
                } else if op == BinaryOp::Or && l == Value::Bool(true) {
                    o == ok_value(Value::Bool(true)) && t == m
                } else {
                    exists|m2: State, or: Outcome|
                        #[trigger] through(m2, or) && evals(p, f, m, *rhs, or, m2) && t == m2 && if stops(or) {
                            o == or
                        } else {
                            binary_out(op, l, val(or), span, o)
                        }
                }
            },
        Expr::Call { callee, args, span } => exists|m: State, oc: Outcome|
            #[trigger] through(m, oc) && evals(p, f, s, *callee, oc, m) && if stops(oc) {
                o == oc && t == m
            } else {
                calls(p, f, m, val(oc), args@, span, o, t)
            },
    }
}

/// Calling the value `callee` on the argument expressions `args`: the callee is checked,
/// then the arguments are evaluated from left to right, then the body runs in a new frame.
pub open spec fn calls(
    p: Program,
    f: nat,
    s: State,
    callee: Value,
    args: Seq<Expr>,
    span: Span,
    o: Outcome,
    t: State,
) -> bool
    decreases f, args, 3nat,
{
    match callee {
        Value::Function(name) => if name@ == "gc"@ {
            if args.len() != 0 {
                o == error("gc() takes no arguments"@, span) && t == s
            } else {
                o == ok_value(Value::Unit) && collects(s, t)
            }
        } else if !fns(p).contains_key(name@) {
            o == error("undefined function: "@ + name@, span) && t == s
        } else {
            let params = fns(p)[name@].0;
            let decl = fns(p)[name@].1;
            if params.len() != args.len() {
                o == error(arity_msg(name@, params.len(), args.len()), span) && t == s
            } else {
                exists|m: State, lo: ListOut|
                    #[trigger] through(m, lo) && evals_list(p, f, s, args, lo, m) && match lo {
                        ListOut::Stopped(so) => o == so && t == m,
                        ListOut::Done(vs) => if f == 0 {
                            o == error("call depth limit exceeded"@, span) && t == m
                        } else if decl >= p.stmts@.len() || !(p.stmts@[decl as int] is Fn) {
                            o == error("internal error: function declaration not found"@, span) && t == m
                        } else {
                            exists|ob: Outcome, b: State|
                                #[trigger] through(b, ob) && evals(
                                    p,
                                    (f - 1) as nat,
                                    enter(m, params, vs),
                                    p.stmts@[decl as int]->Fn_body,
                                    ob,
                                    b,
                                ) && t == leave(m, b) && o == call_result(ob)
                        },
                    }
            }
        },
        _ => o == error("cannot call non-function value"@, span) && t == s,
    }
}

/// Evaluating a list of expressions from left to right, stopping at the first `return` or
/// error.
pub open spec fn evals_list(p: Program, f: nat, s: State, es: Seq<Expr>, lo: ListOut, t: State) -> bool
    decreases f, es, 1nat,
{
    if es.len() == 0 {
        lo == ListOut::Done(Seq::<Value>::empty()) && t == s
    } else {
        exists|m: State, lo1: ListOut|
            #[trigger] through(m, lo1) && evals_list(p, f, s, es.drop_last(), lo1, m) && match lo1 {
                ListOut::Stopped(_) => lo == lo1 && t == m,
                ListOut::Done(vs) => exists|o: Outcome|
                    #[trigger] through(t, o) && evals(p, f, m, es.last(), o, t) && lo == if stops(o) {
                        ListOut::Stopped(o)
                    } else {
                        ListOut::Done(vs.push(val(o)))
                    },
            }
    }
}

/// Evaluating the values of an object literal's properties from left to right.
pub open spec fn evals_props(
    p: Program,
    f: nat,
    s: State,
    props: Seq<(String, Expr)>,
    lo: ListOut,
    t: State,
) -> bool
    decreases f, props, 1nat,
{
    if props.len() == 0 {
        lo == ListOut::Done(Seq::<Value>::empty()) && t == s
    } else {
        exists|m: State, lo1: ListOut|
            #[trigger] through(m, lo1) && evals_props(p, f, s, props.drop_last(), lo1, m) && match lo1 {
                ListOut::Stopped(_) => lo == lo1 && t == m,
                ListOut::Done(vs) => exists|o: Outcome|
                    #[trigger] through(t, o) && evals(p, f, m, props.last().1, o, t) && lo == if stops(o) {
                        ListOut::Stopped(o)
                    } else {
                        ListOut::Done(vs.push(val(o)))
                    },
            }
    }
}

/// Running statements in order, stopping at the first `return` or error; a run that
/// completes gives `Unit`.
pub open spec fn evals_stmts(p: Program, f: nat, s: State, sts: Seq<Stmt>, o: Outcome, t: State) -> bool
    decreases f, sts, 1nat,
{
    if sts.len() == 0 {
        o == ok_value(Value::Unit) && t == s
    } else {
        exists|m: State, o1: Outcome|
            #[trigger] through(m, o1) && evals_stmts(p, f, s, sts.drop_last(), o1, m) && if stops(o1) {
                o == o1 && t == m
            } else {
                runs_stmt(p, f, m, sts.last(), o, t)
            }
    }
}

/// Running one statement.
pub open spec fn runs_stmt(p: Program, f: nat, s: State, st: Stmt, o: Outcome, t: State) -> bool
    decreases f, st, 2nat,
{
    match st {
        Stmt::Let { name, expr, .. } => exists|m: State, oe: Outcome|
            #[trigger] through(m, oe) && evals(p, f, s, expr, oe, m) && if stops(oe) {
                o == oe && t == m
            } else {
                o == ok_value(Value::Unit) && t == with_vars(m, define_in(m.vars, name@, val(oe)))
            },
        Stmt::Assign { target, expr, span } => match target {
            Expr::Ident(name, _) => exists|m: State, oe: Outcome|
                #[trigger] through(m, oe) && evals(p, f, s, expr, oe, m) && if stops(oe) {
                    o == oe && t == m
                } else {
                    match assign_value(m.vars, name@, val(oe)) {
                        Some(w) => o == ok_value(Value::Unit) && t == with_vars(m, w),
                        None => o == error("undefined variable: "@ + name@, span) && t == m,
                    }
                },
            Expr::Index { target: base, index, .. } => exists|m: State, ob: Outcome|
                #[trigger] through(m, ob) && evals(p, f, s, *base, ob, m) && if stops(ob) {
                    o == ob && t == m
                } else {
                    exists|m2: State, oi: Outcome|
                        #[trigger] through(m2, oi) && evals(p, f, m, *index, oi, m2) && if stops(oi) {
                            o == oi && t == m2
                        } else {
                            exists|m3: State, ov: Outcome|
                                #[trigger] through(m3, ov) && evals(p, f, m2, expr, ov, m3) && if stops(ov) {
                                    o == ov && t == m3
                                } else if write_ok(m3.heap, val(ob), val(oi)) {
                                    o == ok_value(Value::Unit) && t == State {
                                        heap: write_spec(m3.heap, val(ob), val(oi), val(ov)),
                                        ..m3
                                    }
                                } else {
                                    o == error(write_err(m3.heap, m3.slots, val(ob), val(oi)), span) && t == m3
                                }
                        }
                },
            _ => o == error("invalid assignment target"@, span) && t == s,
        },
        Stmt::Return { expr, span } => match expr {
            Some(e) => exists|m: State, oe: Outcome|
                #[trigger] through(m, oe) && evals(p, f, s, e, oe, m) && t == m && o == match oe {
                    Ok(Exec::Value(v)) => Ok(Exec::Return(v, span)),
                    other => other,
                },
            None => o == Ok::<Exec, (Seq<char>, Span)>(Exec::Return(Value::Unit, span)) && t == s,
        },
        Stmt::Fn { .. } => o == ok_value(Value::Unit) && t == s,
        Stmt::Expr { expr, .. } => exists|m: State, oe: Outcome|
            #[trigger] through(m, oe) && evals(p, f, s, expr, oe, m) && t == m && o == if stops(oe) {
                oe
            } else {
                ok_value(Value::Unit)
            },
    }
}

/// The message of a `return` outside of any function.
pub open spec fn stray_return_msg() -> Seq<char> {
    "return is only allowed inside functions"@
}

/// Running a program can give `r`: its statements run at top level with calls allowed to
/// nest `depth` deep, then its tail expression gives the value (`Unit` without one); a
/// `return` outside of any function is an error.
pub open spec fn runs(p: Program, depth: nat, r: Result<Value, (Seq<char>, Span)>) -> bool {
    exists|m: State, o1: Outcome|
        #[trigger] through(m, o1) && evals_stmts(p, depth, initial_state(), p.stmts@, o1, m) && match o1 {
            Err(e) => r == Err::<Value, (Seq<char>, Span)>(e),
            Ok(Exec::Return(_, sp)) => r == Err::<Value, (Seq<char>, Span)>((stray_return_msg(), sp)),
            Ok(Exec::Value(_)) => match p.tail {
                None => r == Ok::<Value, (Seq<char>, Span)>(Value::Unit),
                Some(e) => exists|o2: Outcome, t: State|
                    #[trigger] through(t, o2) && evals(p, depth, m, e, o2, t) && r == match o2 {
                        Ok(Exec::Value(v)) => Ok(v),
                        Ok(Exec::Return(_, sp)) => Err((stray_return_msg(), sp)),
                        Err(e) => Err(e),
                    },
            },
        }
}


/// Evaluating a comparison of two integer literals changes nothing and gives the truth of
/// the comparison: `a < b`, `a <= b`, `a > b`, `a >= b`, `a == b` or `a != b`.
pub proof fn lemma_eval_int_comparison(
    p: Program,
    f: nat,
    s: State,
    a: i64,
    b: i64,
    sa: Span,
    sb: Span,
    op: BinaryOp,
    span: Span,
    o: Outcome,
    t: State,
)
    requires
        op is Lt || op is Le || op is Gt || op is Ge || op is Eq || op is Ne,
        evals(p, f, s, Expr::Binary { lhs: Box::new(Expr::Int(a, sa)), op: op, rhs: Box::new(Expr::Int(b, sb)), span: span }, o, t),
    ensures
        t == s,
        o == ok_value(
            Value::Bool(
                match op {
                    BinaryOp::Lt => a < b,
                    BinaryOp::Le => a <= b,
                    BinaryOp::Gt => a > b,
                    BinaryOp::Ge => a >= b,
                    BinaryOp::Eq => a == b,
                    _ => a != b,
                },
            ),
        ),
{
    let x = match op {
        BinaryOp::Lt => a < b,
        BinaryOp::Le => a <= b,
        BinaryOp::Gt => a > b,
        BinaryOp::Ge => a >= b,
        BinaryOp::Eq => a == b,
        _ => a != b,
    };
    let ea = Expr::Int(a, sa);
    let eb = Expr::Int(b, sb);
    let (m, ol) = choose|m: State, ol: Outcome|
        #[trigger] through(m, ol) && evals(p, f, s, ea, ol, m) && if stops(ol) {
            o == ol && t == m
        } else {
            let l = val(ol);
            if op == BinaryOp::And && !(l is Bool) {
                o == error("left side of '&&' must be bool, got "@ + l.debug(), span) && t == m
            } else if op == BinaryOp::Or && !(l is Bool) {
                o == error("left side of '||' must be bool, got "@ + l.debug(), span) && t == m
            } else if op == BinaryOp::And && l == Value::Bool(false) {
                o == ok_value(Value::Bool(false)) && t == m
            } else if op == BinaryOp::Or && l == Value::Bool(true) {
                o == ok_value(Value::Bool(true)) && t == m
            } else {
                exists|m2: State, or: Outcome|
                    #[trigger] through(m2, or) && evals(p, f, m, eb, or, m2) && t == m2 && if stops(or) {
                        o == or
                    } else {
                        binary_out(op, l, val(or), span, o)
                    }
            }
        };
    assert(ol == ok_value(Value::Int(a)) && m == s);
    let (m2, or) = choose|m2: State, or: Outcome|
        #[trigger] through(m2, or) && evals(p, f, m, eb, or, m2) && t == m2 && if stops(or) {
            o == or
        } else {
            binary_out(op, Value::Int(a), val(or), span, o)
        };
    assert(or == ok_value(Value::Int(b)) && m2 == s);
    lemma_int_comparisons(a, b, x);
    lemma_int_comparisons(a, b, !x);
    lemma_equality_ops(Value::Int(a), Value::Int(b), x);
    lemma_equality_ops(Value::Int(a), Value::Int(b), !x);
    let v = val(o);
    lemma_int_comparison_is_bool(op, a, b, v);
}

/// `&&` and `||` on two boolean literals give the conjunction and the disjunction, and
/// change nothing.
pub proof fn lemma_eval_logic(
    p: Program,
    f: nat,
    s: State,
    x: bool,
    y: bool,
    sa: Span,
    sb: Span,
    op: BinaryOp,
    span: Span,
    o: Outcome,
    t: State,
)
    requires
        op is And || op is Or,
        evals(p, f, s, Expr::Binary { lhs: Box::new(Expr::Bool(x, sa)), op: op, rhs: Box::new(Expr::Bool(y, sb)), span: span }, o, t),
    ensures
        t == s,
        o == ok_value(Value::Bool(if op is And { x && y } else { x || y })),
{
    let ea = Expr::Bool(x, sa);
    let eb = Expr::Bool(y, sb);
    let (m, ol) = choose|m: State, ol: Outcome|
        #[trigger] through(m, ol) && evals(p, f, s, ea, ol, m) && if stops(ol) {
            o == ol && t == m
        } else {
            let l = val(ol);
            if op == BinaryOp::And && !(l is Bool) {
                o == error("left side of '&&' must be bool, got "@ + l.debug(), span) && t == m
            } else if op == BinaryOp::Or && !(l is Bool) {
                o == error("left side of '||' must be bool, got "@ + l.debug(), span) && t == m
            } else if op == BinaryOp::And && l == Value::Bool(false) {
                o == ok_value(Value::Bool(false)) && t == m
            } else if op == BinaryOp::Or && l == Value::Bool(true) {
                o == ok_value(Value::Bool(true)) && t == m
            } else {
                exists|m2: State, or: Outcome|
                    #[trigger] through(m2, or) && evals(p, f, m, eb, or, m2) && t == m2 && if stops(or) {
                        o == or
                    } else {
                        binary_out(op, l, val(or), span, o)
                    }
            }
        };
    assert(ol == ok_value(Value::Bool(x)) && m == s);
    if !((op is And && !x) || (op is Or && x)) {
        let (m2, or) = choose|m2: State, or: Outcome|
            #[trigger] through(m2, or) && evals(p, f, m, eb, or, m2) && t == m2 && if stops(or) {
                o == or
            } else {
                binary_out(op, Value::Bool(x), val(or), span, o)
            };
        assert(or == ok_value(Value::Bool(y)) && m2 == s);
    }
}

} // verus!
