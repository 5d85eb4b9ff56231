use vstd::prelude::*;
use crate::ast::{BinaryOp, Expr, Param, Program, Stmt, UnaryOp};
use crate::bytecode::{CompileError, Function, Instr, InstrKind, Module};
use crate::span::Span;
use crate::value::Value;

verus! {

// ---------------------------------------------------------------------------
// The code that the compiler emits for each construct.
// ---------------------------------------------------------------------------

/// An instruction kind as a value: names as character sequences, numbers as integers.
pub enum KindV {
    Push(Value),
    Pop,
    PushScope,
    PopScope,
    LoadVar(Seq<char>),
    DefineVar(Seq<char>),
    SetVar(Seq<char>),
    Neg,
    Not,
    Add,
    Sub,
    Mul,
    Div,
    Mod,
    Eq,
    Ne,
    Lt,
    Le,
    Gt,
    Ge,
    Jump(int),
    JumpIfFalse(int),
    JumpIfTrue(int),
    Call(int, int),
    CallValue(int),
    Return,
    MakeArray(int),
    MakeObject(Seq<Seq<char>>),
    IndexGet,
    IndexSet,
    MakeClosure(Seq<char>, Seq<Seq<char>>),
}

/// The names of a list of strings, as character sequences.
pub open spec fn names_v(ns: Seq<String>) -> Seq<Seq<char>> {
    ns.map_values(|n: String| n@)
}

pub open spec fn kind_v(k: InstrKind) -> KindV {
    match k {
        InstrKind::Push(v) => KindV::Push(v),
        InstrKind::Pop => KindV::Pop,
        InstrKind::PushScope => KindV::PushScope,
        InstrKind::PopScope => KindV::PopScope,
        InstrKind::LoadVar(n) => KindV::LoadVar(n@),
        InstrKind::DefineVar(n) => KindV::DefineVar(n@),
        InstrKind::SetVar(n) => KindV::SetVar(n@),
        InstrKind::Neg => KindV::Neg,
        InstrKind::Not => KindV::Not,
        InstrKind::Add => KindV::Add,
        InstrKind::Sub => KindV::Sub,
        InstrKind::Mul => KindV::Mul,
        InstrKind::Div => KindV::Div,
        InstrKind::Mod => KindV::Mod,
        InstrKind::Eq => KindV::Eq,
        InstrKind::Ne => KindV::Ne,
        InstrKind::Lt => KindV::Lt,
        InstrKind::Le => KindV::Le,
        InstrKind::Gt => KindV::Gt,
        InstrKind::Ge => KindV::Ge,
        InstrKind::Jump(d) => KindV::Jump(d as int),
        InstrKind::JumpIfFalse(d) => KindV::JumpIfFalse(d as int),
        InstrKind::JumpIfTrue(d) => KindV::JumpIfTrue(d as int),
        InstrKind::Call(f, n) => KindV::Call(f as int, n as int),
        InstrKind::CallValue(n) => KindV::CallValue(n as int),
        InstrKind::Return => KindV::Return,
        InstrKind::MakeArray(n) => KindV::MakeArray(n as int),
        InstrKind::MakeObject(ks) => KindV::MakeObject(names_v(ks@)),
        InstrKind::IndexGet => KindV::IndexGet,
        InstrKind::IndexSet => KindV::IndexSet,
        InstrKind::MakeClosure(n, caps) => KindV::MakeClosure(n@, names_v(caps@)),
    }
}

/// An instruction as a value.
pub type InstrV = (KindV, Span);

/// Code as values.
pub type CodeV = Seq<InstrV>;

/// A compile error as values: message and span.
pub type CErr = (Seq<char>, Span);

pub open spec fn instr_v(i: Instr) -> InstrV {
    (kind_v(i.kind), i.span)
}

pub open spec fn code_v(c: Seq<Instr>) -> CodeV {
    c.map_values(|i: Instr| instr_v(i))
}

/// The length of compiled code, or 0 for an error.
pub open spec fn clen(r: Result<CodeV, CErr>) -> int {
    match r {
        Ok(c) => c.len() as int,
        Err(_) => 0,
    }
}

/// The code of `a` followed by that of `b`, or the first error.
pub open spec fn chain(a: Result<CodeV, CErr>, b: Result<CodeV, CErr>) -> Result<CodeV, CErr> {
    match a {
        Err(e) => Err(e),
        Ok(x) => match b {
            Err(e) => Err(e),
            Ok(y) => Ok(x + y),
        },
    }
}

/// The code of `a` followed by the instructions `tail`.
pub open spec fn chain_emit(a: Result<CodeV, CErr>, tail: CodeV) -> Result<CodeV, CErr> {
    match a {
        Err(e) => Err(e),
        Ok(x) => Ok(x + tail),
    }
}

/// The instruction of a binary operator that is not `&&` or `||`.
pub open spec fn binary_kind(op: BinaryOp) -> KindV {
    match op {
        BinaryOp::Add => KindV::Add,
        BinaryOp::Sub => KindV::Sub,
        BinaryOp::Mul => KindV::Mul,
        BinaryOp::Div => KindV::Div,
        BinaryOp::Mod => KindV::Mod,
        BinaryOp::Eq => KindV::Eq,
        BinaryOp::Ne => KindV::Ne,
        BinaryOp::Lt => KindV::Lt,
        BinaryOp::Le => KindV::Le,
        BinaryOp::Gt => KindV::Gt,
        _ => KindV::Ge,
    }
}

/// The code for `e` placed at position `at` of its function: it pushes the value of `e`.
/// Jumps go to absolute positions.
pub open spec fn expr_code(e: Expr, at: int) -> Result<CodeV, CErr>
    decreases e, 2nat,
{
    match e {
        Expr::Int(i, sp) => Ok(seq![(KindV::Push(Value::Int(i)), sp)]),
        Expr::Bool(b, sp) => Ok(seq![(KindV::Push(Value::Bool(b)), sp)]),
        Expr::String(s, sp) => Ok(seq![(KindV::Push(Value::String(s)), sp)]),
        Expr::Ident(name, sp) => Ok(seq![(KindV::LoadVar(name@), sp)]),
        Expr::Group { expr, .. } => expr_code(*expr, at),
        Expr::Array { elements, span } => chain_emit(
            exprs_code(elements@, at),
            seq![(KindV::MakeArray(elements@.len() as int), span)],
        ),
        Expr::Object { props, span } => chain_emit(
            props_code(props@, at),
            seq![(KindV::MakeObject(props@.map_values(|p: (String, Expr)| p.0@)), span)],
        ),
        Expr::Index { target, index, span } => {
            let a = expr_code(*target, at);
            let b = expr_code(*index, at + clen(a));
            chain_emit(chain(a, b), seq![(KindV::IndexGet, span)])
        },
        Expr::Block { stmts, tail, span } => {
            let sc = stmts_code(stmts@, at + 1);
            let q = at + 1 + clen(sc);
            let tc = match tail {
                Some(te) => expr_code(*te, q),
                None => Ok(seq![(KindV::Push(Value::Unit), span)]),
            };
            chain_emit(chain(chain(Ok(seq![(KindV::PushScope, span)]), sc), tc), seq![(KindV::PopScope, span)])
        },
        Expr::If { cond, then_branch, else_branch, span } => {
            let cc = expr_code(*cond, at);
            let j1 = at + clen(cc);
            let tc = expr_code(*then_branch, j1 + 2);
            let j2 = j1 + 2 + clen(tc);
            let ec = expr_code(*else_branch, j2 + 2);
            let end = j2 + 2 + clen(ec);
            chain(
                chain(
                    chain_emit(cc, seq![(KindV::JumpIfFalse(j2 + 1), span), (KindV::Pop, cond.span_of())]),
                    chain_emit(tc, seq![(KindV::Jump(end), span), (KindV::Pop, cond.span_of())]),
                ),
                ec,
            )
        },
        Expr::Unary { op, expr, span } => chain_emit(
            expr_code(*expr, at),
            seq![(if op is Neg { KindV::Neg } else { KindV::Not }, span)],
        ),
        Expr::Binary { lhs, op, rhs, span } => {
            let a = expr_code(*lhs, at);
            if op is And || op is Or {
                let j = at + clen(a);
                let b = expr_code(*rhs, j + 2);
                let end = j + 2 + clen(b);
                let jump = if op is And { KindV::JumpIfFalse(end) } else { KindV::JumpIfTrue(end) };
                chain(chain_emit(a, seq![(jump, span), (KindV::Pop, lhs.span_of())]), b)
            } else {
                let b = expr_code(*rhs, at + clen(a));
                chain_emit(chain(a, b), seq![(binary_kind(op), span)])
            }
        },
        Expr::Call { callee, args, span } => {
            let a = expr_code(*callee, at);
            let b = exprs_code(args@, at + clen(a));
            chain_emit(chain(a, b), seq![(KindV::CallValue(args@.len() as int), span)])
        },
    }
}

/// The code for a list of expressions, one after the other, from position `at`.
pub open spec fn exprs_code(es: Seq<Expr>, at: int) -> Result<CodeV, CErr>
    decreases es, 1nat,
{
    if es.len() == 0 {
        Ok(Seq::empty())
    } else {
        let a = exprs_code(es.drop_last(), at);
        chain(a, expr_code(es.last(), at + clen(a)))
    }
}

/// The code for the values of an object literal's properties, from position `at`.
pub open spec fn props_code(props: Seq<(String, Expr)>, at: int) -> Result<CodeV, CErr>
    decreases props, 1nat,
{
    if props.len() == 0 {
        Ok(Seq::empty())
    } else {
        let a = props_code(props.drop_last(), at);
        chain(a, expr_code(props.last().1, at + clen(a)))
    }
}

/// The code for statements, one after the other, from position `at`.
pub open spec fn stmts_code(sts: Seq<Stmt>, at: int) -> Result<CodeV, CErr>
    decreases sts, 1nat,
{
    if sts.len() == 0 {
        Ok(Seq::empty())
    } else {
        let a = stmts_code(sts.drop_last(), at);
        chain(a, stmt_code(sts.last(), at + clen(a)))
    }
}

/// The code for one statement at position `at`: it leaves the operand stack as it found it.
pub open spec fn stmt_code(st: Stmt, at: int) -> Result<CodeV, CErr>
    decreases st, 2nat,
{
    match st {
        Stmt::Let { name, expr, span, .. } => chain_emit(expr_code(expr, at), seq![(KindV::DefineVar(name@), span)]),
        Stmt::Assign { target, expr, span } => match target {
            Expr::Ident(name, name_span) => chain_emit(
                expr_code(expr, at),
                seq![(KindV::SetVar(name@), name_span)],
            ),
            Expr::Index { target: base, index, .. } => {
                let a = expr_code(*base, at);
                let b = expr_code(*index, at + clen(a));
                let c = expr_code(expr, at + clen(a) + clen(b));
                chain_emit(chain(chain(a, b), c), seq![(KindV::IndexSet, span)])
            },
            _ => Err(("invalid assignment target"@, span)),
        },
        Stmt::Return { expr, span } => chain_emit(
            match expr {
                Some(e) => expr_code(e, at),
                None => Ok(seq![(KindV::Push(Value::Unit), span)]),
            },
            seq![(KindV::Return, span)],
        ),
        Stmt::Fn { .. } => Ok(Seq::empty()),
        Stmt::Expr { expr, .. } => chain_emit(expr_code(expr, at), seq![(KindV::Pop, expr.span_of())]),
    }
}

// ---------------------------------------------------------------------------
// What a whole program compiles to.
// ---------------------------------------------------------------------------

/// The function declarations among `sts`, in order.
pub open spec fn fn_decls(sts: Seq<Stmt>) -> Seq<Stmt>
    decreases sts.len(),
{
    if sts.len() == 0 {
        Seq::empty()
    } else {
        let before = fn_decls(sts.drop_last());
        if sts.last() is Fn {
            before.push(sts.last())
        } else {
            before
        }
    }
}

/// The index of each function name once the declarations of `sts` are registered:
/// `<main>` is 0, `gc` is 1, and the declarations follow in order.
pub open spec fn fn_index(sts: Seq<Stmt>) -> Map<Seq<char>, usize>
    decreases sts.len(),
{
    if sts.len() == 0 {
        map!["<main>"@ => 0usize, "gc"@ => 1usize]
    } else {
        let before = fn_index(sts.drop_last());
        match sts.last() {
            Stmt::Fn { name, .. } => before.insert(name@, (2 + fn_decls(sts.drop_last()).len()) as usize),
            _ => before,
        }
    }
}

/// The first function of `sts` declared under a name that is already taken.
pub open spec fn dup_error(sts: Seq<Stmt>) -> Option<CErr>
    decreases sts.len(),
{
    if sts.len() == 0 {
        None
    } else {
        match dup_error(sts.drop_last()) {
            Some(e) => Some(e),
            None => match sts.last() {
                Stmt::Fn { name, span, .. } => if fn_index(sts.drop_last()).contains_key(name@) {
                    Some(("duplicate function: "@ + name@, span))
                } else {
                    None
                },
                _ => None,
            },
        }
    }
}

/// The code of a function whose body is `body`: the body, then `Return`.
pub open spec fn body_code(body: Expr) -> Result<CodeV, CErr> {
    chain_emit(expr_code(body, 0), seq![(KindV::Return, body.span_of())])
}

/// The first error among the bodies of the declarations `ds`.
pub open spec fn bodies_error(ds: Seq<Stmt>) -> Option<CErr>
    decreases ds.len(),
{
    if ds.len() == 0 {
        None
    } else {
        match bodies_error(ds.drop_last()) {
            Some(e) => Some(e),
            None => match ds.last() {
                Stmt::Fn { body, .. } => match expr_code(body, 0) {
                    Err(e) => Some(e),
                    Ok(_) => None,
                },
                _ => None,
            },
        }
    }
}

/// The span of the entry function's last instructions: that of the tail, else of the last
/// statement, else the start of the text.
pub open spec fn end_span(p: Program) -> Span {
    match p.tail {
        Some(e) => e.span_of(),
        None => if p.stmts@.len() > 0 {
            p.stmts@.last().span_of()
        } else {
            Span { start: 0, end: 0 }
        },
    }
}

/// The code of the entry function's tail at position `at`: the tail, or `Unit`.
pub open spec fn tail_code(p: Program, at: int) -> Result<CodeV, CErr> {
    match p.tail {
        Some(e) => expr_code(e, at),
        None => Ok(seq![(KindV::Push(Value::Unit), end_span(p))]),
    }
}

/// The code of the entry function: the statements, the tail (or `Unit`), then `Return`.
pub open spec fn main_code(p: Program) -> Result<CodeV, CErr> {
    let sc = stmts_code(p.stmts@, 0);
    chain_emit(chain(sc, tail_code(p, clen(sc))), seq![(KindV::Return, end_span(p))])
}

/// What compiling `p` gives: the first function declared twice, else the first error in a
/// function body, else the first error in the entry code, else the entry code.
pub open spec fn compile_outcome(p: Program) -> Result<CodeV, CErr> {
    match dup_error(p.stmts@) {
        Some(e) => Err(e),
        None => match bodies_error(fn_decls(p.stmts@)) {
            Some(e) => Err(e),
            None => main_code(p),
        },
    }
}

/// The code of the builtin `gc`: it returns `Unit`.
pub open spec fn gc_code() -> CodeV {
    seq![(KindV::Push(Value::Unit), Span { start: 0, end: 0 }), (KindV::Return, Span { start: 0, end: 0 })]
}

/// `f` is the compiled form of the declaration `d`: its name, its parameters' names and the
/// code of its body.
pub open spec fn fn_compiled(f: Function, d: Stmt) -> bool {
    match d {
        Stmt::Fn { name, params, body, .. } => {
            &&& f.name@ == name@
            &&& names_v(f.params@) == params@.map_values(|q: Param| q.name@)
            &&& body_code(body) == Ok::<CodeV, CErr>(code_v(f.code@))
        },
        _ => false,
    }
}

/// `m` is the module that `p` compiles to, with entry code `mc`: `<main>` at index 0, `gc` at
/// index 1, then the declared functions in order, each findable by its name.
pub open spec fn module_of(m: Module, p: Program, mc: CodeV) -> bool {
    let ds = fn_decls(p.stmts@);
    &&& m.main == 0
    &&& m.functions@.len() == ds.len() + 2
    &&& m.by_name@ == fn_index(p.stmts@)
    &&& m.functions@[0].name@ == "<main>"@
    &&& m.functions@[0].params@.len() == 0
    &&& code_v(m.functions@[0].code@) == mc
    &&& m.functions@[1].name@ == "gc"@
    &&& m.functions@[1].params@.len() == 0
    &&& code_v(m.functions@[1].code@) == gc_code()
    &&& forall|k: int| 0 <= k < ds.len() ==> fn_compiled(#[trigger] m.functions@[k + 2], ds[k])
}

pub(crate) proof fn lemma_code_v_push(a: Seq<Instr>, i: Instr)
    ensures
        code_v(a.push(i)) == code_v(a).push(instr_v(i)),
{
    assert(code_v(a.push(i)) =~= code_v(a).push(instr_v(i)));
}

pub(crate) proof fn lemma_code_v_update(a: Seq<Instr>, k: int, i: Instr)
    requires
        0 <= k < a.len(),
    ensures
        code_v(a.update(k, i)) == code_v(a).update(k, instr_v(i)),
{
    assert(code_v(a.update(k, i)) =~= code_v(a).update(k, instr_v(i)));
}

/// The code of the first `i + 1` expressions: that of the first `i`, then that of the next.
pub(crate) proof fn lemma_exprs_step(es: Seq<Expr>, i: int, at: int)
    requires
        0 <= i < es.len(),
    ensures
        exprs_code(es.take(i + 1), at) == chain(
            exprs_code(es.take(i), at),
            expr_code(es[i], at + clen(exprs_code(es.take(i), at))),
        ),
{
    assert(es.take(i + 1).drop_last() =~= es.take(i));
}

/// Once a prefix of the expressions fails to compile, the whole list fails with its error.
pub(crate) proof fn lemma_exprs_err(es: Seq<Expr>, j: int, at: int)
    requires
        0 <= j <= es.len(),
        exprs_code(es.take(j), at) is Err,
    ensures
        exprs_code(es, at) == exprs_code(es.take(j), at),
    decreases es.len(),
{
    if j == es.len() {
        assert(es.take(j) =~= es);
    } else {
        assert(es.drop_last().take(j) =~= es.take(j));
        lemma_exprs_err(es.drop_last(), j, at);
    }
}

pub(crate) proof fn lemma_props_step(ps: Seq<(String, Expr)>, i: int, at: int)
    requires
        0 <= i < ps.len(),
    ensures
        props_code(ps.take(i + 1), at) == chain(
            props_code(ps.take(i), at),
            expr_code(ps[i].1, at + clen(props_code(ps.take(i), at))),
        ),
{
    assert(ps.take(i + 1).drop_last() =~= ps.take(i));
}

pub(crate) proof fn lemma_props_err(ps: Seq<(String, Expr)>, j: int, at: int)
    requires
        0 <= j <= ps.len(),
        props_code(ps.take(j), at) is Err,
    ensures
        props_code(ps, at) == props_code(ps.take(j), at),
    decreases ps.len(),
{
    if j == ps.len() {
        assert(ps.take(j) =~= ps);
    } else {
        assert(ps.drop_last().take(j) =~= ps.take(j));
        lemma_props_err(ps.drop_last(), j, at);
    }
}

pub(crate) proof fn lemma_stmts_step(sts: Seq<Stmt>, i: int, at: int)
    requires
        0 <= i < sts.len(),
    ensures
        stmts_code(sts.take(i + 1), at) == chain(
            stmts_code(sts.take(i), at),
            stmt_code(sts[i], at + clen(stmts_code(sts.take(i), at))),
        ),
{
    assert(sts.take(i + 1).drop_last() =~= sts.take(i));
}

pub(crate) proof fn lemma_stmts_err(sts: Seq<Stmt>, j: int, at: int)
    requires
        0 <= j <= sts.len(),
        stmts_code(sts.take(j), at) is Err,
    ensures
        stmts_code(sts, at) == stmts_code(sts.take(j), at),
    decreases sts.len(),
{
    if j == sts.len() {
        assert(sts.take(j) =~= sts);
    } else {
        assert(sts.drop_last().take(j) =~= sts.take(j));
        lemma_stmts_err(sts.drop_last(), j, at);
    }
}

/// The compiler, given code `before`, left code `after` and result `r` as `want` says: on
/// success the code of `want` appended, on failure its error.
pub open spec fn emitted(r: Result<(), CompileError>, before: Seq<Instr>, after: Seq<Instr>, want: Result<CodeV, CErr>) -> bool {
    match want {
        Ok(c) => r is Ok && after.len() == before.len() + c.len() && code_v(after) == code_v(before) + c,
        Err(e) => r matches Err(x) && x.message@ == e.0 && x.span == e.1,
    }
}

pub(crate) proof fn lemma_emit_one(a: Seq<Instr>, i: Instr)
    ensures
        code_v(a.push(i)) == code_v(a) + seq![instr_v(i)],
{
    assert(code_v(a.push(i)) =~= code_v(a) + seq![instr_v(i)]);
}

/// The declarations of a prefix of `sts` are a prefix of those of `sts`.
pub(crate) proof fn lemma_decls_prefix(sts: Seq<Stmt>, j: int)
    requires
        0 <= j <= sts.len(),
    ensures
        fn_decls(sts.take(j)).len() <= fn_decls(sts).len(),
        fn_decls(sts).take(fn_decls(sts.take(j)).len() as int) == fn_decls(sts.take(j)),
    decreases sts.len(),
{
    if j == sts.len() {
        assert(sts.take(j) =~= sts);
        assert(fn_decls(sts).take(fn_decls(sts).len() as int) =~= fn_decls(sts));
    } else {
        assert(sts.drop_last().take(j) =~= sts.take(j));
        lemma_decls_prefix(sts.drop_last(), j);
        let a = fn_decls(sts.drop_last());
        let b = fn_decls(sts.take(j));
        if sts.last() is Fn {
            assert(a.push(sts.last()).take(b.len() as int) =~= a.take(b.len() as int));
        }
    }
}

/// Unfolds the specs of the first `i + 1` statements into those of the first `i`.
pub(crate) proof fn lemma_stmt_take_step(sts: Seq<Stmt>, i: int)
    requires
        0 <= i < sts.len(),
    ensures
        sts.take(i + 1).drop_last() == sts.take(i),
        sts.take(i + 1).last() == sts[i],
{
    assert(sts.take(i + 1).drop_last() =~= sts.take(i));
}

/// A duplicate among the first `j` statements is the first duplicate of all of them.
pub(crate) proof fn lemma_dup_prefix(sts: Seq<Stmt>, j: int)
    requires
        0 <= j <= sts.len(),
        dup_error(sts.take(j)) is Some,
    ensures
        dup_error(sts) == dup_error(sts.take(j)),
    decreases sts.len(),
{
    if j == sts.len() {
        assert(sts.take(j) =~= sts);
    } else {
        assert(sts.drop_last().take(j) =~= sts.take(j));
        lemma_dup_prefix(sts.drop_last(), j);
    }
}

/// An error among the first `j` bodies is the first error among all of them.
pub(crate) proof fn lemma_bodies_prefix(ds: Seq<Stmt>, j: int)
    requires
        0 <= j <= ds.len(),
        bodies_error(ds.take(j)) is Some,
    ensures
        bodies_error(ds) == bodies_error(ds.take(j)),
    decreases ds.len(),
{
    if j == ds.len() {
        assert(ds.take(j) =~= ds);
    } else {
        assert(ds.drop_last().take(j) =~= ds.take(j));
        lemma_bodies_prefix(ds.drop_last(), j);
    }
}

/// Without duplicates, the declaration at statement `i` is declaration number
/// `fn_decls(sts.take(i)).len()`, and its name has the index after `<main>`, `gc` and the
/// declarations before it.
pub(crate) proof fn lemma_index_of_decl(sts: Seq<Stmt>, i: int)
    requires
        dup_error(sts) is None,
        0 <= i < sts.len(),
        sts[i] is Fn,
    ensures
        fn_decls(sts.take(i)).len() < fn_decls(sts).len(),
        fn_decls(sts)[fn_decls(sts.take(i)).len() as int] == sts[i],
        fn_index(sts).contains_key(sts[i]->Fn_name@),
        fn_index(sts)[sts[i]->Fn_name@] == (2 + fn_decls(sts.take(i)).len()) as usize,
    decreases sts.len(),
{
    lemma_stmt_take_step(sts, i);
    lemma_decls_prefix(sts, i + 1);
    let k = fn_decls(sts.take(i)).len() as int;
    assert(fn_decls(sts.take(i + 1)) == fn_decls(sts.take(i)).push(sts[i]));
    assert(fn_decls(sts).take(k + 1)[k] == sts[i]);
    if i == sts.len() - 1 {
        assert(sts.take(i) =~= sts.drop_last());
    } else {
        assert(sts.drop_last()[i] == sts[i]);
        assert(sts.drop_last().take(i) =~= sts.take(i));
        lemma_index_of_decl(sts.drop_last(), i);
        match sts.last() {
            Stmt::Fn { name, .. } => {
                assert(name@ != sts[i]->Fn_name@);
            },
            _ => {},
        }
    }
}

} // verus!
