use vstd::prelude::*;
use crate::ast::{BinaryOp, Expr, Program, Stmt, UnaryOp};
use crate::namemap::NameMap;
use crate::span::Span;
use crate::text::{int_text, push_int, string_append};

verus! {

/// A value of the core evaluator: the first, heap-free subset of the language.
#[derive(Debug, PartialEq)]
pub enum Value {
    Int(i64),
    Bool(bool),
    String(String),
    Unit,
}

/// What a core value is: its variant and payload, with strings as their characters.
pub enum CoreVal {
    Int(i64),
    Bool(bool),
    Str(Seq<char>),
    Unit,
}

impl Value {
    pub open spec fn view_of(self) -> CoreVal {
        match self {
            Value::Int(i) => CoreVal::Int(i),
            Value::Bool(b) => CoreVal::Bool(b),
            Value::String(s) => CoreVal::Str(s@),
            Value::Unit => CoreVal::Unit,
        }
    }

    /// A copy of the value.
    pub fn copy(&self) -> (r: Value)
        ensures
            r.view_of() == self.view_of(),
    {
        match self {
            Value::Int(i) => Value::Int(*i),
            Value::Bool(b) => Value::Bool(*b),
            Value::String(s) => Value::String(s.clone()),
            Value::Unit => Value::Unit,
        }
    }

    /// `==` on core values.
    pub fn equals(&self, other: &Value) -> (r: bool)
        ensures
            r == (self.view_of() == other.view_of()),
    {
        match (self, other) {
            (Value::Int(a), Value::Int(b)) => *a == *b,
            (Value::Bool(a), Value::Bool(b)) => *a == *b,
            (Value::String(a), Value::String(b)) => *a == *b,
            (Value::Unit, Value::Unit) => true,
            _ => false,
        }
    }

    /// The printed form of the value (what `Display` shows): the number, `true`/`false`, the
    /// text of a string, or `()`.
    pub fn to_display_string(&self) -> (s: String)
        ensures
            s@ == display_spec(self.view_of()),
    {
        proof {
            reveal_strlit("true");
            reveal_strlit("false");
            reveal_strlit("()");
        }
        let mut s = String::new();
        match self {
            Value::Int(i) => push_int(&mut s, *i),
            Value::Bool(b) => {
                if *b {
                    string_append(&mut s, "true");
                } else {
                    string_append(&mut s, "false");
                }
            },
            Value::String(t) => string_append(&mut s, t.as_str()),
            Value::Unit => string_append(&mut s, "()"),
        }
        assert(s@ =~= display_spec(self.view_of()));
        s
    }

    fn to_debug_string(&self) -> (s: String)
        ensures
            s@ == debug_spec(self.view_of()),
    {
        proof {
            reveal_strlit("Int(");
            reveal_strlit(")");
            reveal_strlit("Bool(true)");
            reveal_strlit("Bool(false)");
            reveal_strlit("String(\"");
            reveal_strlit("\")");
            reveal_strlit("Unit");
        }
        let mut s = String::new();
        match self {
            Value::Int(i) => {
                string_append(&mut s, "Int(");
                push_int(&mut s, *i);
                string_append(&mut s, ")");
            },
            Value::Bool(b) => {
                if *b {
                    string_append(&mut s, "Bool(true)");
                } else {
                    string_append(&mut s, "Bool(false)");
                }
            },
            Value::String(t) => {
                string_append(&mut s, "String(\"");
                string_append(&mut s, t.as_str());
                string_append(&mut s, "\")");
            },
            Value::Unit => string_append(&mut s, "Unit"),
        }
        assert(s@ =~= debug_spec(self.view_of()));
        s
    }
}

/// The printed form of a core value.
pub open spec fn display_spec(v: CoreVal) -> Seq<char> {
    match v {
        CoreVal::Int(i) => int_text(i as int),
        CoreVal::Bool(b) => if b { "true"@ } else { "false"@ },
        CoreVal::Str(s) => s,
        CoreVal::Unit => "()"@,
    }
}

/// How a core value is written in error messages.
pub open spec fn debug_spec(v: CoreVal) -> Seq<char> {
    match v {
        CoreVal::Int(i) => "Int("@ + int_text(i as int) + ")"@,
        CoreVal::Bool(b) => if b { "Bool(true)"@ } else { "Bool(false)"@ },
        CoreVal::Str(s) => "String(\""@ + s + "\")"@,
        CoreVal::Unit => "Unit"@,
    }
}

/// An error of the core evaluator.
#[derive(Debug)]
pub struct RuntimeError {
    pub message: String,
    pub span: Span,
}

/// The outcome of evaluation as values: a core value, or an error message and span.
pub type Outcome = Result<CoreVal, (Seq<char>, Span)>;

pub open spec fn outcome_of(r: Result<Value, RuntimeError>) -> Outcome {
    match r {
        Ok(v) => Ok(v.view_of()),
        Err(e) => Err((e.message@, e.span)),
    }
}

/// What a binary operator other than `&&` and `||` gives on two core values.
pub open spec fn binary_spec(op: BinaryOp, l: CoreVal, r: CoreVal, span: Span) -> Outcome {
    match op {
        BinaryOp::Add => match (l, r) {
            (CoreVal::Int(a), CoreVal::Int(b)) => match a.checked_add(b) {
                Some(c) => Ok(CoreVal::Int(c)),
                None => Err(("integer overflow"@, span)),
            },
            (CoreVal::Str(a), CoreVal::Str(b)) => Ok(CoreVal::Str(a + b)),
            _ => Err(("cannot add "@ + debug_spec(l) + " and "@ + debug_spec(r), span)),
        },
        BinaryOp::Sub => match (l, r) {
            (CoreVal::Int(a), CoreVal::Int(b)) => match a.checked_sub(b) {
                Some(c) => Ok(CoreVal::Int(c)),
                None => Err(("integer overflow"@, span)),
            },
            _ => Err(("cannot subtract "@ + debug_spec(r) + " from "@ + debug_spec(l), span)),
        },
        BinaryOp::Mul => match (l, r) {
            (CoreVal::Int(a), CoreVal::Int(b)) => match a.checked_mul(b) {
                Some(c) => Ok(CoreVal::Int(c)),
                None => Err(("integer overflow"@, span)),
            },
            _ => Err(("cannot multiply "@ + debug_spec(l) + " and "@ + debug_spec(r), span)),
        },
        BinaryOp::Div => match (l, r) {
            (CoreVal::Int(a), CoreVal::Int(b)) => if b == 0 {
                Err(("division by zero"@, span))
            } else {
                match a.checked_div(b) {
                    Some(c) => Ok(CoreVal::Int(c)),
                    None => Err(("integer overflow"@, span)),
                }
            },
            _ => Err(("cannot divide "@ + debug_spec(l) + " by "@ + debug_spec(r), span)),
        },
        BinaryOp::Mod => match (l, r) {
            (CoreVal::Int(a), CoreVal::Int(b)) => if b == 0 {
                Err(("modulo by zero"@, span))
            } else {
                match a.checked_rem(b) {
                    Some(c) => Ok(CoreVal::Int(c)),
                    None => Err(("integer overflow"@, span)),
                }
            },
            _ => Err(("cannot modulo "@ + debug_spec(l) + " by "@ + debug_spec(r), span)),
        },
        BinaryOp::Eq => Ok(CoreVal::Bool(l == r)),
        BinaryOp::Ne => Ok(CoreVal::Bool(l != r)),
        BinaryOp::Lt => match (l, r) {
            (CoreVal::Int(a), CoreVal::Int(b)) => Ok(CoreVal::Bool(a < b)),
            _ => Err(("cannot compare "@ + debug_spec(l) + " < "@ + debug_spec(r), span)),
        },
        BinaryOp::Le => match (l, r) {
            (CoreVal::Int(a), CoreVal::Int(b)) => Ok(CoreVal::Bool(a <= b)),
            _ => Err(("cannot compare "@ + debug_spec(l) + " <= "@ + debug_spec(r), span)),
        },
        BinaryOp::Gt => match (l, r) {
            (CoreVal::Int(a), CoreVal::Int(b)) => Ok(CoreVal::Bool(a > b)),
            _ => Err(("cannot compare "@ + debug_spec(l) + " > "@ + debug_spec(r), span)),
        },
        BinaryOp::Ge => match (l, r) {
            (CoreVal::Int(a), CoreVal::Int(b)) => Ok(CoreVal::Bool(a >= b)),
            _ => Err(("cannot compare "@ + debug_spec(l) + " >= "@ + debug_spec(r), span)),
        },
        BinaryOp::And | BinaryOp::Or => Err(("unsupported operator"@, span)),
    }
}

/// The value of an expression under the variables `vars`.
pub open spec fn eval_spec(e: Expr, vars: Map<Seq<char>, CoreVal>) -> Outcome
    decreases e,
{
    match e {
        Expr::Int(i, _) => Ok(CoreVal::Int(i)),
        Expr::Bool(b, _) => Ok(CoreVal::Bool(b)),
        Expr::String(s, _) => Ok(CoreVal::Str(s@)),
        Expr::Ident(name, sp) => if vars.contains_key(name@) {
            Ok(vars[name@])
        } else {
            Err(("undefined variable: "@ + name@, sp))
        },
        Expr::Group { expr, .. } => eval_spec(*expr, vars),
        Expr::Unary { op, expr, span } => match eval_spec(*expr, vars) {
            Err(x) => Err(x),
            Ok(v) => match (op, v) {
                (UnaryOp::Neg, CoreVal::Int(i)) => match 0i64.checked_sub(i) {
                    Some(c) => Ok(CoreVal::Int(c)),
                    None => Err(("integer overflow"@, span)),
                },
                (UnaryOp::Not, CoreVal::Bool(b)) => Ok(CoreVal::Bool(!b)),
                (UnaryOp::Neg, _) => Err(("cannot apply unary '-' to "@ + debug_spec(v), span)),
                (UnaryOp::Not, _) => Err(("cannot apply unary '!' to "@ + debug_spec(v), span)),
            },
        },
        Expr::Binary { lhs, op, rhs, span } => match eval_spec(*lhs, vars) {
            Err(x) => Err(x),
            Ok(l) => match op {
                BinaryOp::And => match l {
                    CoreVal::Bool(false) => Ok(CoreVal::Bool(false)),
                    CoreVal::Bool(true) => match eval_spec(*rhs, vars) {
                        Err(x) => Err(x),
                        Ok(CoreVal::Bool(b)) => Ok(CoreVal::Bool(b)),
                        Ok(r) => Err(("right side of '&&' must be bool, got "@ + debug_spec(r), span)),
                    },
                    _ => Err(("left side of '&&' must be bool, got "@ + debug_spec(l), span)),
                },
                BinaryOp::Or => match l {
                    CoreVal::Bool(true) => Ok(CoreVal::Bool(true)),
                    CoreVal::Bool(false) => match eval_spec(*rhs, vars) {
                        Err(x) => Err(x),
                        Ok(CoreVal::Bool(b)) => Ok(CoreVal::Bool(b)),
                        Ok(r) => Err(("right side of '||' must be bool, got "@ + debug_spec(r), span)),
                    },
                    _ => Err(("left side of '||' must be bool, got "@ + debug_spec(l), span)),
                },
                _ => match eval_spec(*rhs, vars) {
                    Err(x) => Err(x),
                    Ok(r) => binary_spec(op, l, r, span),
                },
            },
        },
        _ => Err(("not supported by the core evaluator"@, e.span_of())),
    }
}

/// Running one statement: a `let` binds its value and yields `Unit`; an expression
/// statement yields the value of its expression.
pub open spec fn stmt_step(s: Stmt, vs: Map<Seq<char>, CoreVal>) -> Result<
    (Map<Seq<char>, CoreVal>, CoreVal),
    (Seq<char>, Span),
> {
    match s {
        Stmt::Let { name, expr, .. } => match eval_spec(expr, vs) {
            Err(x) => Err(x),
            Ok(v) => Ok((vs.insert(name@, v), CoreVal::Unit)),
        },
        Stmt::Expr { expr, .. } => match eval_spec(expr, vs) {
            Err(x) => Err(x),
            Ok(v) => Ok((vs, v)),
        },
        _ => Err(("not supported by the core evaluator"@, s.span_of())),
    }
}

/// The variables and the value of the last statement after running `stmts` from `vars`.
pub open spec fn run_spec(stmts: Seq<Stmt>, vars: Map<Seq<char>, CoreVal>) -> Result<
    (Map<Seq<char>, CoreVal>, CoreVal),
    (Seq<char>, Span),
>
    decreases stmts.len(),
{
    if stmts.len() == 0 {
        Ok((vars, CoreVal::Unit))
    } else {
        match run_spec(stmts.drop_last(), vars) {
            Err(x) => Err(x),
            Ok((vs, _)) => stmt_step(stmts.last(), vs),
        }
    }
}

/// The value of a program: its statements run in order, and the value is that of its tail
/// expression, or else of its last statement (`Unit` for a `let` or no statement).
pub open spec fn program_spec(p: Program) -> Outcome {
    match run_spec(p.stmts@, Map::empty()) {
        Err(x) => Err(x),
        Ok((vs, last)) => match p.tail {
            Some(e) => eval_spec(e, vs),
            None => Ok(last),
        },
    }
}

/// Once running a prefix fails, running the whole list fails the same way.
proof fn lemma_run_err_sticks(stmts: Seq<Stmt>, k: int, err: (Seq<char>, Span))
    requires
        0 <= k <= stmts.len(),
        run_spec(stmts.take(k), Map::empty()) == Err::<(Map<Seq<char>, CoreVal>, CoreVal), (Seq<char>, Span)>(err),
    ensures
        run_spec(stmts, Map::empty()) == Err::<(Map<Seq<char>, CoreVal>, CoreVal), (Seq<char>, Span)>(err),
    decreases stmts.len() - k,
{
    if k < stmts.len() {
        let t = stmts.take(k + 1);
        assert(t.drop_last() =~= stmts.take(k));
        lemma_run_err_sticks(stmts, k + 1, err);
    } else {
        assert(stmts.take(k) =~= stmts);
    }
}

/// The variables of the core evaluator.
pub struct Env {
    vars: NameMap<Value>,
}

impl Env {
    /// The variables as values.
    pub closed spec fn view_map(&self) -> Map<Seq<char>, CoreVal> {
        self.vars@.map_values(|v: Value| v.view_of())
    }

    pub closed spec fn wf(&self) -> bool {
        self.vars.wf()
    }

    pub fn new() -> (e: Env)
        ensures
            e.wf(),
            e.view_map() == Map::<Seq<char>, CoreVal>::empty(),
    {
        let e = Env { vars: NameMap::new() };
        assert(e.view_map() =~= Map::<Seq<char>, CoreVal>::empty());
        e
    }

    /// The value of variable `name`, if it is bound.
    pub fn get(&self, name: &str) -> (r: Option<&Value>)
        requires
            self.wf(),
        ensures
            match r {
                Some(v) => self.view_map().contains_key(name@) && v.view_of() == self.view_map()[name@],
                None => !self.view_map().contains_key(name@),
            },
    {
        self.vars.get(name)
    }

    /// Binds `name` to `value`, replacing an earlier binding.
    pub fn set(&mut self, name: String, value: Value)
        requires
            old(self).wf(),
        ensures
            final(self).wf(),
            final(self).view_map() == old(self).view_map().insert(name@, value.view_of()),
    {
        let ghost k = name@;
        let ghost v = value.view_of();
        self.vars.insert(name, value);
        assert(self.view_map() =~= old(self).view_map().insert(k, v));
    }
}

fn error_at(message: &str, span: Span) -> (e: RuntimeError)
    ensures
        e.message@ == message@,
        e.span == span,
{
    let mut m = String::new();
    string_append(&mut m, message);
    RuntimeError { message: m, span }
}

fn error_with(message: &str, v: &Value, span: Span) -> (e: RuntimeError)
    ensures
        e.message@ == message@ + debug_spec(v.view_of()),
        e.span == span,
{
    let mut m = String::new();
    string_append(&mut m, message);
    let d = v.to_debug_string();
    string_append(&mut m, d.as_str());
    RuntimeError { message: m, span }
}

fn error_with2(a: &str, v: &Value, b: &str, w: &Value, span: Span) -> (e: RuntimeError)
    ensures
        e.message@ == a@ + debug_spec(v.view_of()) + b@ + debug_spec(w.view_of()),
        e.span == span,
{
    let mut m = String::new();
    string_append(&mut m, a);
    let d = v.to_debug_string();
    string_append(&mut m, d.as_str());
    string_append(&mut m, b);
    let d2 = w.to_debug_string();
    string_append(&mut m, d2.as_str());
    RuntimeError { message: m, span }
}

/// Runs a program with the core evaluator.
pub fn eval_program(program: &Program) -> (r: Result<Value, RuntimeError>)
    ensures
        outcome_of(r) == program_spec(*program),
{
    let mut env = Env::new();
    let mut last = Value::Unit;
    let mut i: usize = 0;
    proof {
        assert(program.stmts@.take(0) =~= Seq::<Stmt>::empty());
    }
    while i < program.stmts.len()
        invariant
            env.wf(),
            i <= program.stmts@.len(),
            run_spec(program.stmts@.take(i as int), Map::empty()) == Ok::<
                (Map<Seq<char>, CoreVal>, CoreVal),
                (Seq<char>, Span),
            >((env.view_map(), last.view_of())),
        decreases program.stmts@.len() - i,
    {
        let ghost t = program.stmts@.take(i + 1);
        proof {
            assert(t.drop_last() =~= program.stmts@.take(i as int));
            assert(t.last() == program.stmts@[i as int]);
        }
        match eval_stmt(&program.stmts[i], &mut env) {
            Ok(v) => {
                last = v;
            },
            Err(e) => {
                proof {
                    lemma_run_err_sticks(program.stmts@, i + 1, (e.message@, e.span));
                }
                return Err(e);
            },
        }
        i = i + 1;
    }
    proof {
        assert(program.stmts@.take(program.stmts@.len() as int) =~= program.stmts@);
    }
    match &program.tail {
        Some(e) => eval_expr(e, &env),
        None => Ok(last),
    }
}

fn eval_stmt(stmt: &Stmt, env: &mut Env) -> (r: Result<Value, RuntimeError>)
    requires
        old(env).wf(),
    ensures
        final(env).wf(),
        match r {
            Ok(v) => stmt_step(*stmt, old(env).view_map()) == Ok::<
                (Map<Seq<char>, CoreVal>, CoreVal),
                (Seq<char>, Span),
            >((final(env).view_map(), v.view_of())),
            Err(e) => stmt_step(*stmt, old(env).view_map()) == Err::<
                (Map<Seq<char>, CoreVal>, CoreVal),
                (Seq<char>, Span),
            >((e.message@, e.span)),
        },
{
    match stmt {
        Stmt::Let { name, expr, .. } => {
            let value = eval_expr(expr, env)?;
            env.set(name.clone(), value);
            Ok(Value::Unit)
        },
        Stmt::Expr { expr, .. } => eval_expr(expr, env),
        _ => Err(error_at("not supported by the core evaluator", stmt.span())),
    }
}

fn eval_expr(expr: &Expr, env: &Env) -> (r: Result<Value, RuntimeError>)
    requires
        env.wf(),
    ensures
        outcome_of(r) == eval_spec(*expr, env.view_map()),
    decreases expr,
{
    proof {
        reveal_strlit("integer overflow");
        reveal_strlit("not supported by the core evaluator");
    }
    match expr {
        Expr::Int(i, _) => Ok(Value::Int(*i)),
        Expr::Bool(b, _) => Ok(Value::Bool(*b)),
        Expr::String(s, _) => Ok(Value::String(s.clone())),
        Expr::Ident(name, sp) => match env.get(name.as_str()) {
            Some(v) => Ok(v.copy()),
            None => {
                let mut m = String::new();
                string_append(&mut m, "undefined variable: ");
                string_append(&mut m, name.as_str());
                Err(RuntimeError { message: m, span: *sp })
            },
        },
        Expr::Group { expr: inner, .. } => eval_expr(inner, env),
        Expr::Unary { op, expr: inner, span } => {
            let v = eval_expr(inner, env)?;
            match (op, &v) {
                (UnaryOp::Neg, Value::Int(i)) => match 0i64.checked_sub(*i) {
                    Some(c) => Ok(Value::Int(c)),
                    None => Err(error_at("integer overflow", *span)),
                },
                (UnaryOp::Not, Value::Bool(b)) => Ok(Value::Bool(!*b)),
                (UnaryOp::Neg, _) => Err(error_with("cannot apply unary '-' to ", &v, *span)),
                (UnaryOp::Not, _) => Err(error_with("cannot apply unary '!' to ", &v, *span)),
            }
        },
        Expr::Binary { lhs, op, rhs, span } => {
            let l = eval_expr(lhs, env)?;
            match op {
                BinaryOp::And => {
                    match l {
                        Value::Bool(false) => Ok(Value::Bool(false)),
                        Value::Bool(true) => {
                            let r = eval_expr(rhs, env)?;
                            match r {
                                Value::Bool(b) => Ok(Value::Bool(b)),
                                _ => Err(error_with("right side of '&&' must be bool, got ", &r, *span)),
                            }
                        },
                        _ => Err(error_with("left side of '&&' must be bool, got ", &l, *span)),
                    }
                },
                BinaryOp::Or => {
                    match l {
                        Value::Bool(true) => Ok(Value::Bool(true)),
                        Value::Bool(false) => {
                            let r = eval_expr(rhs, env)?;
                            match r {
                                Value::Bool(b) => Ok(Value::Bool(b)),
                                _ => Err(error_with("right side of '||' must be bool, got ", &r, *span)),
                            }
                        },
                        _ => Err(error_with("left side of '||' must be bool, got ", &l, *span)),
                    }
                },
                _ => {
                    let r = eval_expr(rhs, env)?;
                    eval_binary(*op, l, r, *span)
                },
            }
        },
        _ => Err(error_at("not supported by the core evaluator", expr.span())),
    }
}

/// Applies a binary operator other than `&&` and `||`.
fn eval_binary(op: BinaryOp, l: Value, r: Value, span: Span) -> (res: Result<Value, RuntimeError>)
    ensures
        outcome_of(res) == binary_spec(op, l.view_of(), r.view_of(), span),
{
    proof {
        reveal_strlit("integer overflow");
        reveal_strlit("division by zero");
        reveal_strlit("modulo by zero");
        reveal_strlit("unsupported operator");
    }
    match op {
        BinaryOp::Add => match (&l, &r) {
            (Value::Int(a), Value::Int(b)) => match a.checked_add(*b) {
                Some(c) => Ok(Value::Int(c)),
                None => Err(error_at("integer overflow", span)),
            },
            (Value::String(a), Value::String(b)) => {
                let mut s = String::new();
                string_append(&mut s, a.as_str());
                string_append(&mut s, b.as_str());
                Ok(Value::String(s))
            },
            _ => Err(error_with2("cannot add ", &l, " and ", &r, span)),
        },
        BinaryOp::Sub => match (&l, &r) {
            (Value::Int(a), Value::Int(b)) => match a.checked_sub(*b) {
                Some(c) => Ok(Value::Int(c)),
                None => Err(error_at("integer overflow", span)),
            },
            _ => Err(error_with2("cannot subtract ", &r, " from ", &l, span)),
        },
        BinaryOp::Mul => match (&l, &r) {
            (Value::Int(a), Value::Int(b)) => match a.checked_mul(*b) {
                Some(c) => Ok(Value::Int(c)),
                None => Err(error_at("integer overflow", span)),
            },
            _ => Err(error_with2("cannot multiply ", &l, " and ", &r, span)),
        },
        BinaryOp::Div => match (&l, &r) {
            (Value::Int(a), Value::Int(b)) => {
                if *b == 0 {
                    Err(error_at("division by zero", span))
                } else {
                    match a.checked_div(*b) {
                        Some(c) => Ok(Value::Int(c)),
                        None => Err(error_at("integer overflow", span)),
                    }
                }
            },
            _ => Err(error_with2("cannot divide ", &l, " by ", &r, span)),
        },
        BinaryOp::Mod => match (&l, &r) {
            (Value::Int(a), Value::Int(b)) => {
                if *b == 0 {
                    Err(error_at("modulo by zero", span))
                } else {
                    match a.checked_rem(*b) {
                        Some(c) => Ok(Value::Int(c)),
                        None => Err(error_at("integer overflow", span)),
                    }
                }
            },
            _ => Err(error_with2("cannot modulo ", &l, " by ", &r, span)),
        },
        BinaryOp::Eq => Ok(Value::Bool(l.equals(&r))),
        BinaryOp::Ne => Ok(Value::Bool(!l.equals(&r))),
        BinaryOp::Lt => match (&l, &r) {
            (Value::Int(a), Value::Int(b)) => Ok(Value::Bool(*a < *b)),
            _ => Err(error_with2("cannot compare ", &l, " < ", &r, span)),
        },
        BinaryOp::Le => match (&l, &r) {
            (Value::Int(a), Value::Int(b)) => Ok(Value::Bool(*a <= *b)),
            _ => Err(error_with2("cannot compare ", &l, " <= ", &r, span)),
        },
        BinaryOp::Gt => match (&l, &r) {
            (Value::Int(a), Value::Int(b)) => Ok(Value::Bool(*a > *b)),
            _ => Err(error_with2("cannot compare ", &l, " > ", &r, span)),
        },
        BinaryOp::Ge => match (&l, &r) {
            (Value::Int(a), Value::Int(b)) => Ok(Value::Bool(*a >= *b)),
            _ => Err(error_with2("cannot compare ", &l, " >= ", &r, span)),
        },
        BinaryOp::And | BinaryOp::Or => Err(error_at("unsupported operator", span)),
    }
}

} // verus!
