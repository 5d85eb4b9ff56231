use vstd::prelude::*;
use crate::ast::{BinaryOp, Expr, Param, Program, Stmt, UnaryOp};
use crate::namemap::NameMap;
use crate::span::Span;
use crate::text::{push_decimal, string_append};
use crate::value::Value;
use crate::codegen::{
    InstrV, KindV, binary_kind, body_code, bodies_error, compile_outcome, dup_error, fn_compiled, fn_decls, fn_index, gc_code,
    lemma_bodies_prefix, lemma_decls_prefix, lemma_dup_prefix, lemma_index_of_decl, lemma_stmt_take_step, module_of, tail_code, clen, code_v, emitted, instr_v, expr_code, exprs_code, lemma_code_v_push, lemma_code_v_update, lemma_emit_one, lemma_exprs_err, lemma_exprs_step,
    lemma_props_err, lemma_props_step, names_v, props_code, stmt_code, stmts_code, lemma_stmts_err, lemma_stmts_step,
};

verus! {

/// The index of a function in a module.
pub type FuncId = usize;

/// What an instruction does.
#[derive(Debug)]
pub enum InstrKind {
    // Constants / stack ops
    Push(Value),
    Pop,
    // Scopes
    PushScope,
    PopScope,
    // Variables
    LoadVar(String),
    DefineVar(String),
    SetVar(String),
    // Ops
    Neg,
    Not,
    Add,
    Sub,
    Mul,
    Div,
    Mod,
    Eq,
    Ne,
    Lt,
    Le,
    Gt,
    Ge,
    // Control flow
    Jump(usize),
    JumpIfFalse(usize),
    JumpIfTrue(usize),
    // Calls
    Call(FuncId, usize),
    CallValue(usize),
    Return,
    // Heap / aggregates
    MakeArray(usize),
    MakeObject(Vec<String>),
    IndexGet,
    IndexSet,
    MakeClosure(String, Vec<String>),
}

/// An instruction with the span of the source it was compiled from.
#[derive(Debug)]
pub struct Instr {
    pub kind: InstrKind,
    pub span: Span,
}

impl Instr {
    pub fn new(kind: InstrKind, span: Span) -> (i: Instr)
        ensures
            i.kind == kind,
            i.span == span,
    {
        Instr { kind, span }
    }
}

/// A compiled function: its name, parameter names and code.
#[derive(Debug)]
pub struct Function {
    pub name: String,
    pub params: Vec<String>,
    pub code: Vec<Instr>,
}

/// A compiled program: its functions, their index by name, and the entry function.
#[derive(Debug)]
pub struct Module {
    pub functions: Vec<Function>,
    pub by_name: NameMap<FuncId>,
    pub main: FuncId,
}

/// An error of the compiler.
#[derive(Debug)]
pub struct CompileError {
    pub message: String,
    pub span: Span,
}

// ---------------------------------------------------------------------------
// Well-formed code.
// ---------------------------------------------------------------------------

/// The jump target of an instruction, if it is a jump.
pub open spec fn jump_target(k: InstrKind) -> Option<usize> {
    match k {
        InstrKind::Jump(d) => Some(d),
        InstrKind::JumpIfFalse(d) => Some(d),
        InstrKind::JumpIfTrue(d) => Some(d),
        _ => None,
    }
}

/// Every jump in `code` lands at or before position `n`.
pub open spec fn jumps_within(code: Seq<Instr>, n: int) -> bool {
    forall|i: int| 0 <= i < code.len() ==> match #[trigger] jump_target(code[i].kind) {
        Some(d) => d <= n,
        None => true,
    }
}

/// Code that cannot run off its end: it ends with `Return`, and every jump lands on one of
/// its instructions.
pub open spec fn code_wf(code: Seq<Instr>) -> bool {
    &&& code.len() > 0
    &&& code.last().kind is Return
    &&& jumps_within(code, code.len() - 1)
}

/// A module whose every function has well-formed code, whose entry exists, and whose names
/// map to existing functions.
pub open spec fn module_wf(m: Module) -> bool {
    &&& m.main < m.functions@.len()
    &&& m.by_name.wf()
    &&& forall|i: int| 0 <= i < m.functions@.len() ==> code_wf((#[trigger] m.functions@[i]).code@)
    &&& forall|k: Seq<char>| #[trigger] m.by_name@.contains_key(k) ==> m.by_name@[k] < m.functions@.len()
}

impl Module {
    /// The function with index `id`, if any.
    pub fn get_func(&self, id: FuncId) -> (r: Option<&Function>)
        ensures
            match r {
                Some(f) => id < self.functions@.len() && *f == self.functions@[id as int],
                None => id >= self.functions@.len(),
            },
    {
        if id < self.functions.len() {
            Some(&self.functions[id])
        } else {
            None
        }
    }
}

// ---------------------------------------------------------------------------
// Locals of the function being compiled.
// ---------------------------------------------------------------------------

/// The names that `names` holds, each once.
pub open spec fn distinct_names(names: Seq<String>) -> bool {
    forall|i: int, j: int| 0 <= i < names.len() && 0 <= j < names.len() && i != j ==> (#[trigger] names[i])@
        != (#[trigger] names[j])@
}

/// `name` is one of `names`.
pub open spec fn has_name(names: Seq<String>, name: Seq<char>) -> bool {
    exists|i: int| 0 <= i < names.len() && (#[trigger] names[i])@ == name
}

/// The locals defined in the function being compiled, by lexical scope, and the names its
/// closure environment provides.
pub struct FunctionCtx {
    scopes: Vec<Vec<String>>,
    closure_env: Vec<String>,
}

impl FunctionCtx {
    /// The names of scope `i`.
    pub closed spec fn scope(&self, i: int) -> Seq<String> {
        self.scopes@[i]@
    }

    /// The number of scopes.
    pub closed spec fn depth(&self) -> nat {
        self.scopes@.len()
    }

    /// The names of the closure environment.
    pub closed spec fn closure_names(&self) -> Seq<String> {
        self.closure_env@
    }

    /// A name is visible: it is in some scope or in the closure environment.
    pub open spec fn visible(&self, name: Seq<char>) -> bool {
        has_name(self.closure_names(), name) || exists|i: int|
            0 <= i < self.depth() && has_name(#[trigger] self.scope(i), name)
    }

    /// The context of the entry function: no scopes.
    pub fn new_main() -> (c: FunctionCtx)
        ensures
            c.depth() == 0,
            c.closure_names().len() == 0,
    {
        FunctionCtx { scopes: Vec::new(), closure_env: Vec::new() }
    }

    /// The context of a function: one scope that holds its parameters.
    pub fn new_function(params: &Vec<String>, closure_env: Vec<String>) -> (c: FunctionCtx)
        ensures
            c.depth() == 1,
            c.closure_names() == closure_env@,
            forall|k: Seq<char>| #[trigger] has_name(c.scope(0), k) <==> has_name(params@, k),
    {
        let mut ctx = FunctionCtx { scopes: Vec::new(), closure_env };
        ctx.scopes.push(Vec::new());
        let mut i: usize = 0;
        while i < params.len()
            invariant
                i <= params@.len(),
                ctx.depth() == 1,
                ctx.closure_names() == closure_env@,
                forall|k: Seq<char>| #[trigger] has_name(ctx.scope(0), k) <==> has_name(params@.take(i as int), k),
            decreases params@.len() - i,
        {
            let ghost before = ctx.scope(0);
            ctx.define_local(params[i].clone());
            proof {
                assert forall|k: Seq<char>| #[trigger] has_name(ctx.scope(0), k) <==> has_name(params@.take(i + 1), k) by {
                    if has_name(params@.take(i + 1), k) {
                        let j = choose|j: int| 0 <= j < i + 1 && (#[trigger] params@.take(i + 1)[j])@ == k;
                        if j < i {
                            assert(params@.take(i as int)[j] == params@.take(i + 1)[j]);
                        }
                    }
                    if has_name(params@.take(i as int), k) {
                        let j = choose|j: int| 0 <= j < i && (#[trigger] params@.take(i as int)[j])@ == k;
                        assert(params@.take(i as int)[j] == params@.take(i + 1)[j]);
                    }
                    if k == params@[i as int]@ {
                        assert(params@.take(i + 1)[i as int] == params@[i as int]);
                    }
                }
            }
            i = i + 1;
        }
        assert(params@.take(params@.len() as int) =~= params@);
        ctx
    }

    /// Enters a new, empty scope.
    pub fn push_scope(&mut self)
        ensures
            final(self).depth() == old(self).depth() + 1,
            forall|i: int| 0 <= i < old(self).depth() ==> final(self).scope(i) == old(self).scope(i),
            final(self).scope(old(self).depth() as int).len() == 0,
            final(self).closure_names() == old(self).closure_names(),
    {
        self.scopes.push(Vec::new());
    }

    /// Leaves the innermost scope, if there is one.
    pub fn pop_scope(&mut self)
        ensures
            final(self).depth() == if old(self).depth() > 0 { old(self).depth() - 1 } else { 0 },
            forall|i: int| 0 <= i < final(self).depth() ==> final(self).scope(i) == old(self).scope(i),
            final(self).closure_names() == old(self).closure_names(),
    {
        let _ = self.scopes.pop();
    }

    /// Records `name` as a local of the innermost scope; without a scope it is a global and
    /// nothing is recorded.
    pub fn define_local(&mut self, name: String)
        ensures
            final(self).depth() == old(self).depth(),
            final(self).closure_names() == old(self).closure_names(),
            forall|i: int| 0 <= i < old(self).depth() - 1 ==> final(self).scope(i) == old(self).scope(i),
            old(self).depth() > 0 ==> forall|k: Seq<char>|
                #[trigger] has_name(final(self).scope(old(self).depth() - 1), k) <==> (has_name(
                    old(self).scope(old(self).depth() - 1),
                    k,
                ) || k == name@),
    {
        let n = self.scopes.len();
        if n == 0 {
            return;
        }
        let mut last = self.scopes.pop().unwrap();
        let ghost before = last@;
        let mut i: usize = 0;
        let mut found = false;
        while i < last.len()
            invariant
                i <= last@.len(),
                found ==> has_name(last@, name@),
            decreases last@.len() - i,
        {
            if last[i] == name {
                found = true;
            }
            i = i + 1;
        }
        if !found {
            let ghost nm = name@;
            last.push(name);
            proof {
                assert forall|k: Seq<char>| #[trigger] has_name(last@, k) <==> (has_name(before, k) || k == nm) by {
                    if has_name(last@, k) {
                        let j = choose|j: int| 0 <= j < last@.len() && (#[trigger] last@[j])@ == k;
                        if j < before.len() {
                            assert(last@[j] == before[j]);
                        }
                    }
                    if has_name(before, k) {
                        let j = choose|j: int| 0 <= j < before.len() && (#[trigger] before[j])@ == k;
                        assert(last@[j] == before[j]);
                    }
                    if k == nm {
                        assert(last@[last@.len() - 1]@ == nm);
                    }
                }
            }
        }
        self.scopes.push(last);
        proof {
            assert forall|j: int| 0 <= j < old(self).depth() - 1 implies self.scope(j) == old(self).scope(j) by {
                assert(self.scopes@[j] == old(self).scopes@[j]);
            }
        }
    }

    /// Every visible name, each once: the closure environment and all scopes.
    pub fn visible_names(&self) -> (r: Vec<String>)
        ensures
            distinct_names(r@),
            forall|k: Seq<char>| #[trigger] has_name(r@, k) <==> self.visible(k),
    {
        let mut r: Vec<String> = Vec::new();
        let mut i: usize = 0;
        while i < self.closure_env.len()
            invariant
                i <= self.closure_env@.len(),
                distinct_names(r@),
                forall|k: Seq<char>| #[trigger] has_name(r@, k) <==> has_name(self.closure_env@.take(i as int), k),
            decreases self.closure_env@.len() - i,
        {
            let ghost before = r@;
            add_name(&mut r, &self.closure_env[i]);
            proof {
                lemma_take_step(self.closure_env@, i as int);
                assert forall|k: Seq<char>| #[trigger] has_name(r@, k) <==> has_name(self.closure_env@.take(i + 1), k) by {
                    assert(has_name(r@, k) <==> (has_name(before, k) || k == self.closure_env@[i as int]@));
                }
            }
            i = i + 1;
        }
        assert(self.closure_env@.take(self.closure_env@.len() as int) =~= self.closure_env@);
        let mut s: usize = 0;
        while s < self.scopes.len()
            invariant
                s <= self.scopes@.len(),
                distinct_names(r@),
                forall|k: Seq<char>| #[trigger] has_name(r@, k) <==> (has_name(self.closure_env@, k) || exists|j: int|
                    0 <= j < s && has_name(#[trigger] self.scope(j), k)),
            decreases self.scopes@.len() - s,
        {
            let scope = &self.scopes[s];
            let ghost start = r@;
            let mut j: usize = 0;
            while j < scope.len()
                invariant
                    j <= scope@.len(),
                    scope@ == self.scope(s as int),
                    distinct_names(r@),
                    forall|k: Seq<char>| #[trigger] has_name(r@, k) <==> (has_name(start, k) || has_name(scope@.take(j as int), k)),
                decreases scope@.len() - j,
            {
                let ghost mid = r@;
                add_name(&mut r, &scope[j]);
                proof {
                    lemma_take_step(scope@, j as int);
                    assert forall|k: Seq<char>| #[trigger] has_name(r@, k) <==> (has_name(start, k) || has_name(scope@.take(j + 1), k)) by {
                        assert(has_name(r@, k) <==> (has_name(mid, k) || k == scope@[j as int]@));
                        assert(has_name(mid, k) <==> (has_name(start, k) || has_name(scope@.take(j as int), k)));
                        assert(has_name(scope@.take(j + 1), k) <==> (has_name(scope@.take(j as int), k) || k == scope@[j as int]@));
                    }
                }
                j = j + 1;
            }
            assert(scope@.take(scope@.len() as int) =~= scope@);
            proof {
                assert forall|k: Seq<char>| #[trigger] has_name(r@, k) <==> (has_name(self.closure_env@, k) || exists|j: int|
                    0 <= j < s + 1 && has_name(#[trigger] self.scope(j), k)) by {
                    assert(has_name(r@, k) <==> (has_name(start, k) || has_name(scope@, k)));
                    if has_name(scope@, k) {
                        assert(has_name(self.scope(s as int), k));
                    }
                    if exists|j: int| 0 <= j < s + 1 && has_name(#[trigger] self.scope(j), k) {
                        let j = choose|j: int| 0 <= j < s + 1 && has_name(#[trigger] self.scope(j), k);
                        if j == s {
                            assert(has_name(scope@, k));
                        }
                    }
                }
            }
            s = s + 1;
        }
        r
    }
}

/// Adding one more element of `s` to a prefix of `s`.
proof fn lemma_take_step(s: Seq<String>, i: int)
    requires
        0 <= i < s.len(),
    ensures
        forall|k: Seq<char>| #[trigger] has_name(s.take(i + 1), k) <==> (has_name(s.take(i), k) || k == s[i]@),
{
    assert forall|k: Seq<char>| #[trigger] has_name(s.take(i + 1), k) <==> (has_name(s.take(i), k) || k == s[i]@) by {
        if has_name(s.take(i + 1), k) {
            let j = choose|j: int| 0 <= j < i + 1 && (#[trigger] s.take(i + 1)[j])@ == k;
            if j < i {
                assert(s.take(i)[j] == s.take(i + 1)[j]);
            }
        }
        if has_name(s.take(i), k) {
            let j = choose|j: int| 0 <= j < i && (#[trigger] s.take(i)[j])@ == k;
            assert(s.take(i)[j] == s.take(i + 1)[j]);
        }
        if k == s[i]@ {
            assert(s.take(i + 1)[i] == s[i]);
        }
    }
}

/// Adds `name` to `names` unless it is there already.
fn add_name(names: &mut Vec<String>, name: &String)
    requires
        distinct_names(old(names)@),
    ensures
        distinct_names(final(names)@),
        forall|k: Seq<char>| #[trigger] has_name(final(names)@, k) <==> (has_name(old(names)@, k) || k == name@),
{
    let mut i: usize = 0;
    while i < names.len()
        invariant
            i <= names@.len(),
            names@ == old(names)@,
            distinct_names(old(names)@),
            forall|j: int| 0 <= j < i ==> (#[trigger] names@[j])@ != name@,
        decreases names@.len() - i,
    {
        if names[i] == *name {
            proof {
                assert forall|k: Seq<char>| #[trigger] has_name(names@, k) <==> (has_name(old(names)@, k) || k == name@) by {
                    if k == name@ {
                        assert(names@[i as int]@ == k);
                    }
                }
            }
            return;
        }
        i = i + 1;
    }
    let ghost before = names@;
    names.push(name.clone());
    proof {
        assert forall|a: int, b: int|
            0 <= a < names@.len() && 0 <= b < names@.len() && a != b implies (#[trigger] names@[a])@
            != (#[trigger] names@[b])@ by {
            if a < before.len() && b < before.len() {
                assert(names@[a] == before[a]);
                assert(names@[b] == before[b]);
            } else if a < before.len() {
                assert(names@[a] == before[a]);
            } else {
                assert(names@[b] == before[b]);
            }
        }
        assert forall|k: Seq<char>| #[trigger] has_name(names@, k) <==> (has_name(before, k) || k == name@) by {
            if has_name(names@, k) {
                let j = choose|j: int| 0 <= j < names@.len() && (#[trigger] names@[j])@ == k;
                if j < before.len() {
                    assert(names@[j] == before[j]);
                }
            }
            if has_name(before, k) {
                let j = choose|j: int| 0 <= j < before.len() && (#[trigger] before[j])@ == k;
                assert(names@[j] == before[j]);
            }
            if k == name@ {
                assert(names@[names@.len() - 1]@ == name@);
            }
        }
    }
}


// ---------------------------------------------------------------------------
// The compiler.
// ---------------------------------------------------------------------------

/// `new` extends `old`: it holds the instructions of `old`, unchanged, at the front.
pub open spec fn extends(old: Seq<Instr>, new: Seq<Instr>) -> bool {
    &&& old.len() <= new.len()
    &&& forall|i: int| 0 <= i < old.len() ==> new[i] == old[i]
}

fn emit(code: &mut Vec<Instr>, kind: InstrKind, span: Span)
    ensures
        final(code)@ == old(code)@.push(Instr { kind, span }),
{
    code.push(Instr::new(kind, span));
}

/// The jump `k` sent to `target` instead.
pub open spec fn retarget(k: InstrKind, target: usize) -> InstrKind {
    match k {
        InstrKind::Jump(_) => InstrKind::Jump(target),
        InstrKind::JumpIfFalse(_) => InstrKind::JumpIfFalse(target),
        _ => InstrKind::JumpIfTrue(target),
    }
}

/// Points the jump at `at` to `target`.
fn patch_jump(code: &mut Vec<Instr>, at: usize, target: usize)
    requires
        at < old(code)@.len(),
        jump_target(old(code)@[at as int].kind) is Some,
    ensures
        final(code)@.len() == old(code)@.len(),
        forall|i: int| 0 <= i < old(code)@.len() && i != at ==> final(code)@[i] == old(code)@[i],
        jump_target(final(code)@[at as int].kind) == Some(target),
        final(code)@ == old(code)@.update(
            at as int,
            Instr { kind: retarget(old(code)@[at as int].kind, target), span: old(code)@[at as int].span },
        ),
{
    let span = code[at].span;
    let kind = match &code[at].kind {
        InstrKind::Jump(_) => InstrKind::Jump(target),
        InstrKind::JumpIfFalse(_) => InstrKind::JumpIfFalse(target),
        _ => InstrKind::JumpIfTrue(target),
    };
    code.set(at, Instr { kind, span });
}

/// The code of a function that returns `Unit`: what a function holds until its body is
/// compiled.
fn unit_code(span: Span) -> (code: Vec<Instr>)
    ensures
        code_wf(code@),
        code_v(code@) == seq![(KindV::Push(Value::Unit), span), (KindV::Return, span)],
{
    let mut code: Vec<Instr> = Vec::new();
    emit(&mut code, InstrKind::Push(Value::Unit), span);
    emit(&mut code, InstrKind::Return, span);
    assert(code_v(code@) =~= seq![(KindV::Push(Value::Unit), span), (KindV::Return, span)]);
    code
}

fn compile_failure(message: &str, span: Span) -> (e: CompileError)
    ensures
        e.message@ == message@,
        e.span == span,
{
    let mut m = String::new();
    string_append(&mut m, message);
    CompileError { message: m, span }
}

struct Compiler {
    functions: Vec<Function>,
    by_name: NameMap<FuncId>,
    next_lambda_id: usize,
}

impl Compiler {
    spec fn wf(&self) -> bool {
        &&& self.by_name.wf()
        &&& forall|i: int| 0 <= i < self.functions@.len() ==> code_wf((#[trigger] self.functions@[i]).code@)
        &&& forall|k: Seq<char>| #[trigger] self.by_name@.contains_key(k) ==> self.by_name@[k] < self.functions@.len()
    }

    fn new() -> (c: Compiler)
        ensures
            c.wf(),
            c.functions@.len() == 0,
    {
        Compiler { functions: Vec::new(), by_name: NameMap::new(), next_lambda_id: 0 }
    }

    /// A fresh name for an anonymous function.
    fn fresh_lambda_name(&mut self) -> (name: String)
        requires
            old(self).next_lambda_id < usize::MAX,
        ensures
            final(self).next_lambda_id == old(self).next_lambda_id + 1,
            final(self).functions == old(self).functions,
            final(self).by_name == old(self).by_name,
    {
        let id = self.next_lambda_id;
        self.next_lambda_id = self.next_lambda_id + 1;
        let mut name = String::new();
        string_append(&mut name, "<lambda#");
        push_decimal(&mut name, id as u64);
        string_append(&mut name, ">");
        name
    }

    /// Adds a function named `name` whose body is not compiled yet; returns its index.
    fn define_stub(&mut self, name: String, params: Vec<String>, span: Span) -> (id: FuncId)
        requires
            old(self).wf(),
        ensures
            final(self).wf(),
            id == old(self).functions@.len(),
            final(self).functions@.len() == old(self).functions@.len() + 1,
            final(self).by_name@ == old(self).by_name@.insert(name@, id),
            final(self).next_lambda_id == old(self).next_lambda_id,
            final(self).functions@.drop_last() == old(self).functions@,
            final(self).functions@.last().name == name,
            final(self).functions@.last().params == params,
            code_v(final(self).functions@.last().code@) == seq![(KindV::Push(Value::Unit), span), (KindV::Return, span)],
    {
        let id = self.functions.len();
        self.by_name.insert(name.clone(), id);
        let code = unit_code(span);
        self.functions.push(Function { name, params, code });
        proof {
            assert forall|i: int| 0 <= i < self.functions@.len() implies code_wf((#[trigger] self.functions@[i]).code@) by {
                if i < id {
                    assert(self.functions@[i] == old(self).functions@[i]);
                }
            }
            assert(self.functions@.drop_last() =~= old(self).functions@);
        }
        id
    }

    /// Compiles `body` followed by `Return` as the code of function `id`.
    fn compile_function_body(&mut self, id: FuncId, body: &Expr, ctx: &mut FunctionCtx) -> (r: Result<(), CompileError>)
        requires
            old(self).wf(),
            id < old(self).functions@.len(),
        ensures
            final(self).wf(),
            final(self).functions@.len() == old(self).functions@.len(),
            final(self).by_name == old(self).by_name,
            final(self).next_lambda_id == old(self).next_lambda_id,
            forall|j: int| 0 <= j < old(self).functions@.len() && j != id ==> final(self).functions@[j] == old(self).functions@[j],
            final(self).functions@[id as int].name == old(self).functions@[id as int].name,
            final(self).functions@[id as int].params == old(self).functions@[id as int].params,
            match body_code(*body) {
                Ok(c) => r is Ok && code_v(final(self).functions@[id as int].code@) == c,
                Err(e) => r matches Err(x) && x.message@ == e.0 && x.span == e.1,
            },
    {
        let mut code: Vec<Instr> = Vec::new();
        let ghost c0 = code@;
        self.compile_expr(body, &mut code, ctx)?;
        let ghost before = code@;
        emit(&mut code, InstrKind::Return, body.span());
        proof {
            lemma_emit_one(before, code@.last());
            assert(code_v(c0) =~= Seq::<InstrV>::empty());
            let cb = expr_code(*body, 0)->Ok_0;
            assert(code_v(code@) =~= cb + seq![(KindV::Return, body.span_of())]);
        }
        proof {
            assert forall|i: int| 0 <= i < code@.len() implies match #[trigger] jump_target(code@[i].kind) {
                Some(d) => d <= code@.len() - 1,
                None => true,
            } by {
                if i < before.len() {
                    assert(code@[i] == before[i]);
                }
            }
        }
        let ghost final_code = code@;
        let mut f = Function { name: String::new(), params: Vec::new(), code: Vec::new() };
        self.functions.set_and_swap(id, &mut f);
        f.code = code;
        self.functions.set_and_swap(id, &mut f);
        proof {
            assert(self.functions@[id as int].code@ == final_code);
            assert forall|i: int| 0 <= i < self.functions@.len() implies code_wf((#[trigger] self.functions@[i]).code@) by {
                if i != id {
                    assert(self.functions@[i] == old(self).functions@[i]);
                }
            }
        }
        Ok(())
    }

    /// Compiles statements, each leaving the operand stack as it found it.
    fn compile_stmt(&self, stmt: &Stmt, code: &mut Vec<Instr>, ctx: &mut FunctionCtx) -> (r: Result<(), CompileError>)
        requires
            jumps_within(old(code)@, old(code)@.len() as int),
        ensures
            extends(old(code)@, final(code)@),
            jumps_within(final(code)@, final(code)@.len() as int),
            r is Ok ==> final(ctx).depth() == old(ctx).depth(),
            emitted(r, old(code)@, final(code)@, stmt_code(*stmt, old(code)@.len() as int)),
        decreases stmt, 0nat,
    {
        let ghost at = code@.len() as int;
        let ghost c0 = code@;
        match stmt {
            Stmt::Let { name, expr, span, .. } => {
                self.compile_expr(expr, code, ctx)?;
                let ghost c1 = code@;
                self.emit_plain(code, InstrKind::DefineVar(name.clone()), *span);
                ctx.define_local(name.clone());
                proof {
                    lemma_emit_one(c1, code@.last());
                    let ca = expr_code(*expr, at)->Ok_0;
                    assert(code_v(code@) =~= code_v(c0) + (ca + seq![(KindV::DefineVar(name@), *span)]));
                }
                Ok(())
            },
            Stmt::Assign { target, expr, span } => match target {
                Expr::Ident(name, name_span) => {
                    self.compile_expr(expr, code, ctx)?;
                    let ghost c1 = code@;
                    self.emit_plain(code, InstrKind::SetVar(name.clone()), *name_span);
                    proof {
                        lemma_emit_one(c1, code@.last());
                        let ca = expr_code(*expr, at)->Ok_0;
                        assert(code_v(code@) =~= code_v(c0) + (ca + seq![(KindV::SetVar(name@), *name_span)]));
                    }
                    Ok(())
                },
                Expr::Index { target: base, index, .. } => {
                    self.compile_expr(base, code, ctx)?;
                    self.compile_expr(index, code, ctx)?;
                    self.compile_expr(expr, code, ctx)?;
                    let ghost c3 = code@;
                    self.emit_plain(code, InstrKind::IndexSet, *span);
                    proof {
                        lemma_emit_one(c3, code@.last());
                        let ca = expr_code(**base, at)->Ok_0;
                        let cb = expr_code(**index, at + ca.len())->Ok_0;
                        let cx = expr_code(*expr, at + ca.len() + cb.len())->Ok_0;
                        assert(code_v(code@) =~= code_v(c0) + (((ca + cb) + cx) + seq![(KindV::IndexSet, *span)]));
                    }
                    Ok(())
                },
                _ => Err(compile_failure("invalid assignment target", *span)),
            },
            Stmt::Return { expr, span } => {
                match expr {
                    Some(e) => self.compile_expr(e, code, ctx)?,
                    None => self.emit_plain(code, InstrKind::Push(Value::Unit), *span),
                }
                let ghost c1 = code@;
                proof {
                    if expr is None {
                        lemma_emit_one(c0, c1.last());
                    }
                }
                self.emit_plain(code, InstrKind::Return, *span);
                proof {
                    lemma_emit_one(c1, code@.last());
                    let ca = match expr {
                        Some(e) => expr_code(*e, at)->Ok_0,
                        None => seq![(KindV::Push(Value::Unit), *span)],
                    };
                    assert(code_v(code@) =~= code_v(c0) + (ca + seq![(KindV::Return, *span)]));
                }
                Ok(())
            },
            Stmt::Fn { .. } => {
                proof {
                    assert(code_v(code@) =~= code_v(c0) + Seq::<InstrV>::empty());
                }
                Ok(())
            },
            Stmt::Expr { expr, .. } => {
                self.compile_expr(expr, code, ctx)?;
                let ghost c1 = code@;
                self.emit_plain(code, InstrKind::Pop, expr.span());
                proof {
                    lemma_emit_one(c1, code@.last());
                    let ca = expr_code(*expr, at)->Ok_0;
                    assert(code_v(code@) =~= code_v(c0) + (ca + seq![(KindV::Pop, expr.span_of())]));
                }
                Ok(())
            },
        }
    }

    /// Emits an instruction that is not a jump.
    fn emit_plain(&self, code: &mut Vec<Instr>, kind: InstrKind, span: Span)
        requires
            jump_target(kind) is None,
            jumps_within(old(code)@, old(code)@.len() as int),
        ensures
            extends(old(code)@, final(code)@),
            final(code)@.len() == old(code)@.len() + 1,
            jumps_within(final(code)@, final(code)@.len() as int),
            final(code)@ == old(code)@.push(Instr { kind, span }),
    {
        let ghost before = code@;
        emit(code, kind, span);
        proof {
            assert forall|i: int| 0 <= i < code@.len() implies match #[trigger] jump_target(code@[i].kind) {
                Some(d) => d <= code@.len(),
                None => true,
            } by {
                if i < before.len() {
                    assert(code@[i] == before[i]);
                }
            }
        }
    }

    /// Emits a jump whose target is set later by `patch_jump`; returns its position.
    fn emit_jump(&self, code: &mut Vec<Instr>, kind: InstrKind, span: Span) -> (at: usize)
        requires
            jump_target(kind) is Some,
            jump_target(kind)->0 <= old(code)@.len(),
            jumps_within(old(code)@, old(code)@.len() as int),
        ensures
            extends(old(code)@, final(code)@),
            final(code)@.len() == old(code)@.len() + 1,
            at == old(code)@.len(),
            jump_target(final(code)@[at as int].kind) is Some,
            jumps_within(final(code)@, final(code)@.len() as int),
            final(code)@ == old(code)@.push(Instr { kind, span }),
    {
        let at = code.len();
        let ghost before = code@;
        emit(code, kind, span);
        proof {
            assert forall|i: int| 0 <= i < code@.len() implies match #[trigger] jump_target(code@[i].kind) {
                Some(d) => d <= code@.len(),
                None => true,
            } by {
                if i < before.len() {
                    assert(code@[i] == before[i]);
                }
            }
        }
        at
    }

    /// Points the jump at `at` to the current end of `code`.
    fn patch_to_end(&self, code: &mut Vec<Instr>, at: usize)
        requires
            at < old(code)@.len(),
            jump_target(old(code)@[at as int].kind) is Some,
            jumps_within(old(code)@, old(code)@.len() as int),
        ensures
            final(code)@.len() == old(code)@.len(),
            forall|i: int| 0 <= i < old(code)@.len() && i != at ==> final(code)@[i] == old(code)@[i],
            jumps_within(final(code)@, final(code)@.len() as int),
            final(code)@ == old(code)@.update(
                at as int,
                Instr {
                    kind: retarget(old(code)@[at as int].kind, old(code)@.len() as usize),
                    span: old(code)@[at as int].span,
                },
            ),
    {
        let end = code.len();
        let ghost before = code@;
        patch_jump(code, at, end);
        proof {
            assert forall|i: int| 0 <= i < code@.len() implies match #[trigger] jump_target(code@[i].kind) {
                Some(d) => d <= code@.len(),
                None => true,
            } by {
                if i != at {
                    assert(code@[i] == before[i]);
                }
            }
        }
    }

    /// Compiles a block: a scope around its statements and the value of its tail (`Unit`
    /// without one).
    fn compile_block(&self, block: &Expr, code: &mut Vec<Instr>, ctx: &mut FunctionCtx) -> (r: Result<(), CompileError>)
        requires
            jumps_within(old(code)@, old(code)@.len() as int),
            block is Block,
        ensures
            extends(old(code)@, final(code)@),
            jumps_within(final(code)@, final(code)@.len() as int),
            r is Ok ==> final(code)@.len() > old(code)@.len(),
            r is Ok ==> final(ctx).depth() == old(ctx).depth(),
            emitted(r, old(code)@, final(code)@, expr_code(*block, old(code)@.len() as int)),
        decreases block, 1nat,
    {
        let ghost at = code@.len() as int;
        let ghost c0 = code@;
        let (stmts, tail, span) = match block {
            Expr::Block { stmts, tail, span } => (stmts, tail, *span),
            _ => {
                return Ok(());
            },
        };
        self.emit_plain(code, InstrKind::PushScope, span);
        ctx.push_scope();
        let mut i: usize = 0;
        proof {
            assert forall|j: int| 0 <= j < stmts@.len() implies decreases_to!(*block => #[trigger] stmts@[j]) by {
                assert(decreases_to!(stmts@ => stmts@[j]));
            }
            lemma_emit_one(c0, code@.last());
            assert(stmts@.take(0) =~= Seq::<Stmt>::empty());
        }
        let ghost c1 = code@;
        let ghost at1 = at + 1;
        while i < stmts.len()
            invariant
                forall|j: int| 0 <= j < stmts@.len() ==> decreases_to!(*block => #[trigger] stmts@[j]),
                extends(old(code)@, code@),
                extends(c1, code@),
                code@.len() > old(code)@.len(),
                jumps_within(code@, code@.len() as int),
                ctx.depth() == old(ctx).depth() + 1,
                i <= stmts@.len(),
                at1 == c1.len(),
                at1 == at + 1,
                at == old(code)@.len(),
                c0 == old(code)@,
                *block == (Expr::Block { stmts: *stmts, tail: *tail, span }),
                code_v(c1) == code_v(c0) + seq![(KindV::PushScope, span)],
                stmts_code(stmts@.take(i as int), at1) matches Ok(c) && code_v(code@) == code_v(c1) + c && code@.len()
                    == at1 + c.len(),
            decreases stmts@.len() - i,
        {
            proof {
                assert(decreases_to!(*block => stmts@[i as int]));
                lemma_stmts_step(stmts@, i as int, at1);
            }
            let r1 = self.compile_stmt(&stmts[i], code, ctx);
            match r1 {
                Err(e) => {
                    proof {
                        lemma_stmts_err(stmts@, i + 1, at1);
                    }
                    return Err(e);
                },
                Ok(()) => {},
            }
            proof {
                let c = stmts_code(stmts@.take(i as int), at1)->Ok_0;
                let cs = stmt_code(stmts@[i as int], at1 + c.len())->Ok_0;
                assert(code_v(code@) =~= code_v(c1) + (c + cs));
            }
            i = i + 1;
        }
        proof {
            assert(stmts@.take(stmts@.len() as int) =~= stmts@);
        }
        let ghost c2 = code@;
        match tail {
            Some(e) => self.compile_expr(e, code, ctx)?,
            None => self.emit_plain(code, InstrKind::Push(Value::Unit), span),
        }
        let ghost c3 = code@;
        proof {
            if tail is None {
                lemma_emit_one(c2, c3.last());
            }
        }
        ctx.pop_scope();
        self.emit_plain(code, InstrKind::PopScope, span);
        proof {
            lemma_emit_one(c3, code@.last());
            let sc = stmts_code(stmts@, at1)->Ok_0;
            let tc = match tail {
                Some(te) => expr_code(**te, at1 + sc.len())->Ok_0,
                None => seq![(KindV::Push(Value::Unit), span)],
            };
            assert(code_v(code@) =~= code_v(c0) + (((seq![(KindV::PushScope, span)] + sc) + tc) + seq![
                (KindV::PopScope, span),
            ]));
        }
        Ok(())
    }

    /// Compiles an expression: code that pushes its value on the operand stack.
    fn compile_expr(&self, expr: &Expr, code: &mut Vec<Instr>, ctx: &mut FunctionCtx) -> (r: Result<(), CompileError>)
        requires
            jumps_within(old(code)@, old(code)@.len() as int),
        ensures
            extends(old(code)@, final(code)@),
            jumps_within(final(code)@, final(code)@.len() as int),
            r is Ok ==> final(code)@.len() > old(code)@.len(),
            r is Ok ==> final(ctx).depth() == old(ctx).depth(),
            emitted(r, old(code)@, final(code)@, expr_code(*expr, old(code)@.len() as int)),
        decreases expr, 2nat,
    {
        let ghost at = code@.len() as int;
        let ghost c0 = code@;
        match expr {
            Expr::Int(i, span) => {
                self.emit_plain(code, InstrKind::Push(Value::Int(*i)), *span);
                proof {
                    lemma_emit_one(c0, code@.last());
                }
                Ok(())
            },
            Expr::Bool(b, span) => {
                self.emit_plain(code, InstrKind::Push(Value::Bool(*b)), *span);
                proof {
                    lemma_emit_one(c0, code@.last());
                }
                Ok(())
            },
            Expr::String(s, span) => {
                self.emit_plain(code, InstrKind::Push(Value::String(s.clone())), *span);
                proof {
                    lemma_emit_one(c0, code@.last());
                }
                Ok(())
            },
            Expr::Ident(name, span) => {
                self.emit_plain(code, InstrKind::LoadVar(name.clone()), *span);
                proof {
                    lemma_emit_one(c0, code@.last());
                }
                Ok(())
            },
            Expr::Group { expr: inner, .. } => self.compile_expr(inner, code, ctx),
            Expr::Array { elements, span } => self.compile_array(expr, code, ctx),
            Expr::Object { props, span } => self.compile_object(expr, code, ctx),
            Expr::Index { target, index, span } => {
                self.compile_expr(target, code, ctx)?;
                let ghost c1 = code@;
                self.compile_expr(index, code, ctx)?;
                let ghost c2 = code@;
                self.emit_plain(code, InstrKind::IndexGet, *span);
                proof {
                    lemma_emit_one(c2, code@.last());
                    let ca = expr_code(**target, at)->Ok_0;
                    let cb = expr_code(**index, at + ca.len())->Ok_0;
                    assert(code_v(code@) =~= code_v(c0) + ((ca + cb) + seq![(KindV::IndexGet, *span)]));
                }
                Ok(())
            },
            Expr::Block { .. } => self.compile_block(expr, code, ctx),
            Expr::If { cond, then_branch, else_branch, span } => self.compile_if(expr, code, ctx),
            Expr::Unary { op, expr: inner, span } => {
                self.compile_expr(inner, code, ctx)?;
                let ghost c1 = code@;
                match op {
                    UnaryOp::Neg => self.emit_plain(code, InstrKind::Neg, *span),
                    UnaryOp::Not => self.emit_plain(code, InstrKind::Not, *span),
                }
                proof {
                    lemma_emit_one(c1, code@.last());
                    let ca = expr_code(**inner, at)->Ok_0;
                    assert(code_v(code@) =~= code_v(c0) + (ca + seq![instr_v(code@.last())]));
                }
                Ok(())
            },
            Expr::Binary { lhs, op, rhs, span } => {
                match op {
                    BinaryOp::And | BinaryOp::Or => self.compile_logic(expr, code, ctx),
                    _ => {
                        self.compile_expr(lhs, code, ctx)?;
                        self.compile_expr(rhs, code, ctx)?;
                        let ghost c2 = code@;
                        let kind = match op {
                            BinaryOp::Add => InstrKind::Add,
                            BinaryOp::Sub => InstrKind::Sub,
                            BinaryOp::Mul => InstrKind::Mul,
                            BinaryOp::Div => InstrKind::Div,
                            BinaryOp::Mod => InstrKind::Mod,
                            BinaryOp::Eq => InstrKind::Eq,
                            BinaryOp::Ne => InstrKind::Ne,
                            BinaryOp::Lt => InstrKind::Lt,
                            BinaryOp::Le => InstrKind::Le,
                            BinaryOp::Gt => InstrKind::Gt,
                            _ => InstrKind::Ge,
                        };
                        self.emit_plain(code, kind, *span);
                        proof {
                            lemma_emit_one(c2, code@.last());
                            let ca = expr_code(**lhs, at)->Ok_0;
                            let cb = expr_code(**rhs, at + ca.len())->Ok_0;
                            assert(instr_v(code@.last()) == (binary_kind(*op), *span));
                            assert(code_v(code@) =~= code_v(c0) + ((ca + cb) + seq![(binary_kind(*op), *span)]));
                        }
                        Ok(())
                    },
                }
            },
            Expr::Call { callee, args, span } => self.compile_call(expr, code, ctx),
        }
    }

    /// Compiles an array literal: its elements, then `MakeArray`.
    fn compile_array(&self, expr: &Expr, code: &mut Vec<Instr>, ctx: &mut FunctionCtx) -> (r: Result<(), CompileError>)
        requires
            jumps_within(old(code)@, old(code)@.len() as int),
            expr is Array,
        ensures
            extends(old(code)@, final(code)@),
            jumps_within(final(code)@, final(code)@.len() as int),
            r is Ok ==> final(code)@.len() > old(code)@.len(),
            r is Ok ==> final(ctx).depth() == old(ctx).depth(),
            emitted(r, old(code)@, final(code)@, expr_code(*expr, old(code)@.len() as int)),
        decreases expr, 1nat,
    {
        let ghost at = code@.len() as int;
        let ghost c0 = code@;
        match expr {
            Expr::Array { elements, span } => {
                let mut i: usize = 0;
                proof {
                    assert forall|j: int| 0 <= j < elements@.len() implies decreases_to!(*expr => #[trigger] elements@[j]) by {
                        assert(decreases_to!(elements@ => elements@[j]));
                    }
                    assert(elements@.take(0) =~= Seq::<Expr>::empty());
                }
                while i < elements.len()
                    invariant
                        forall|j: int| 0 <= j < elements@.len() ==> decreases_to!(*expr => #[trigger] elements@[j]),
                        extends(old(code)@, code@),
                        jumps_within(code@, code@.len() as int),
                        ctx.depth() == old(ctx).depth(),
                        i <= elements@.len(),
                        at == old(code)@.len(),
                        c0 == old(code)@,
                        *expr == (Expr::Array { elements: *elements, span: *span }),
                        exprs_code(elements@.take(i as int), at) matches Ok(c) && code_v(code@) == code_v(c0) + c,
                    decreases elements@.len() - i,
                {
                    proof {
                        assert(decreases_to!(*expr => elements@[i as int]));
                        lemma_exprs_step(elements@, i as int, at);
                        assert(code@.len() == code_v(code@).len());
                        assert(code@.len() == at + clen(exprs_code(elements@.take(i as int), at)));
                    }
                    let ghost before = code@;
                    let r1 = self.compile_expr(&elements[i], code, ctx);
                    match r1 {
                        Err(e) => {
                            proof {
                                lemma_exprs_err(elements@, i + 1, at);
                            }
                            return Err(e);
                        },
                        Ok(()) => {},
                    }
                    proof {
                        let c = exprs_code(elements@.take(i as int), at)->Ok_0;
                        let ce = expr_code(elements@[i as int], at + c.len())->Ok_0;
                        assert(code_v(code@) =~= code_v(c0) + (c + ce));
                    }
                    i = i + 1;
                }
                proof {
                    assert(elements@.take(elements@.len() as int) =~= elements@);
                }
                let ghost before = code@;
                self.emit_plain(code, InstrKind::MakeArray(elements.len()), *span);
                proof {
                    lemma_emit_one(before, code@.last());
                    let c = exprs_code(elements@, at)->Ok_0;
                    assert(code_v(code@) =~= code_v(c0) + (c + seq![(KindV::MakeArray(elements@.len() as int), *span)]));
                }
                Ok(())
            },
            _ => Ok(()),
        }
    }

    /// Compiles an object literal: the values of its properties, then `MakeObject`.
    fn compile_object(&self, expr: &Expr, code: &mut Vec<Instr>, ctx: &mut FunctionCtx) -> (r: Result<(), CompileError>)
        requires
            jumps_within(old(code)@, old(code)@.len() as int),
            expr is Object,
        ensures
            extends(old(code)@, final(code)@),
            jumps_within(final(code)@, final(code)@.len() as int),
            r is Ok ==> final(code)@.len() > old(code)@.len(),
            r is Ok ==> final(ctx).depth() == old(ctx).depth(),
            emitted(r, old(code)@, final(code)@, expr_code(*expr, old(code)@.len() as int)),
        decreases expr, 1nat,
    {
        let ghost at = code@.len() as int;
        let ghost c0 = code@;
        match expr {
            Expr::Object { props, span } => {
                let mut keys: Vec<String> = Vec::new();
                let mut i: usize = 0;
                proof {
                    assert forall|j: int| 0 <= j < props@.len() implies decreases_to!(*expr => #[trigger] props@[j].1) by {
                        assert(decreases_to!(props@ => props@[j]));
                        assert(decreases_to!(props@[j] => props@[j].1));
                    }
                    assert(props@.take(0) =~= Seq::<(String, Expr)>::empty());
                }
                while i < props.len()
                    invariant
                        forall|j: int| 0 <= j < props@.len() ==> decreases_to!(*expr => #[trigger] props@[j].1),
                        extends(old(code)@, code@),
                        jumps_within(code@, code@.len() as int),
                        ctx.depth() == old(ctx).depth(),
                        i <= props@.len(),
                        at == old(code)@.len(),
                        c0 == old(code)@,
                        *expr == (Expr::Object { props: *props, span: *span }),
                        props_code(props@.take(i as int), at) matches Ok(c) && code_v(code@) == code_v(c0) + c,
                        keys@.len() == i,
                        forall|k: int| 0 <= k < i ==> #[trigger] keys@[k] == props@[k].0,
                    decreases props@.len() - i,
                {
                    proof {
                        assert(decreases_to!(*expr => props@[i as int].1));
                        lemma_props_step(props@, i as int, at);
                        assert(code@.len() == code_v(code@).len());
                        assert(code@.len() == at + clen(props_code(props@.take(i as int), at)));
                    }
                    keys.push(props[i].0.clone());
                    let r1 = self.compile_expr(&props[i].1, code, ctx);
                    match r1 {
                        Err(e) => {
                            proof {
                                lemma_props_err(props@, i + 1, at);
                            }
                            return Err(e);
                        },
                        Ok(()) => {},
                    }
                    proof {
                        let c = props_code(props@.take(i as int), at)->Ok_0;
                        let ce = expr_code(props@[i as int].1, at + c.len())->Ok_0;
                        assert(code_v(code@) =~= code_v(c0) + (c + ce));
                    }
                    i = i + 1;
                }
                proof {
                    assert(props@.take(props@.len() as int) =~= props@);
                    assert(names_v(keys@) =~= props@.map_values(|p: (String, Expr)| p.0@));
                }
                let ghost before = code@;
                let ghost kv = names_v(keys@);
                self.emit_plain(code, InstrKind::MakeObject(keys), *span);
                proof {
                    lemma_emit_one(before, code@.last());
                    let c = props_code(props@, at)->Ok_0;
                    assert(code_v(code@) =~= code_v(c0) + (c + seq![(KindV::MakeObject(kv), *span)]));
                }
                Ok(())
            },
            _ => Ok(()),
        }
    }

    /// Compiles a conditional: both branches, with jumps around them.
    fn compile_if(&self, expr: &Expr, code: &mut Vec<Instr>, ctx: &mut FunctionCtx) -> (r: Result<(), CompileError>)
        requires
            jumps_within(old(code)@, old(code)@.len() as int),
            expr is If,
        ensures
            extends(old(code)@, final(code)@),
            jumps_within(final(code)@, final(code)@.len() as int),
            r is Ok ==> final(code)@.len() > old(code)@.len(),
            r is Ok ==> final(ctx).depth() == old(ctx).depth(),
            emitted(r, old(code)@, final(code)@, expr_code(*expr, old(code)@.len() as int)),
        decreases expr, 1nat,
    {
        let ghost at = code@.len() as int;
        let ghost c0 = code@;
        match expr {
            Expr::If { cond, then_branch, else_branch, span } => {
                self.compile_expr(cond, code, ctx)?;
                let ghost c1 = code@;
                let here = code.len();
                let jmp_false_at = self.emit_jump(code, InstrKind::JumpIfFalse(here), *span);
                self.emit_plain(code, InstrKind::Pop, cond.span());
                let ghost c2 = code@;
                self.compile_expr(then_branch, code, ctx)?;
                let ghost c3 = code@;
                let here = code.len();
                let jmp_end_at = self.emit_jump(code, InstrKind::Jump(here), *span);
                let ghost c3p = code@;
                assert(c3p.len() == code.len());
                self.patch_to_end(code, jmp_false_at);
                let ghost c4 = code@;
                self.emit_plain(code, InstrKind::Pop, cond.span());
                let ghost before_else = code@;
                self.compile_expr(else_branch, code, ctx)?;
                let ghost c5 = code@;
                assert(c5.len() == code.len());
                assert(code@[jmp_end_at as int] == before_else[jmp_end_at as int]);
                self.patch_to_end(code, jmp_end_at);
                proof {
                    let cc = expr_code(**cond, at)->Ok_0;
                    let tc = expr_code(**then_branch, at + cc.len() + 2)->Ok_0;
                    let ec = expr_code(**else_branch, at + cc.len() + tc.len() + 4)->Ok_0;
                    let j1 = at + cc.len();
                    let j2 = j1 + 2 + tc.len();
                    let end = j2 + 2 + ec.len();
                    let csp = cond.span_of();
                    // The condition, the jump over the first branch and the `Pop`.
                    lemma_code_v_push(c1, c2[j1]);
                    lemma_code_v_push(c1.push(c2[j1]), c2[j1 + 1]);
                    assert(c2 == c1.push(c2[j1]).push(c2[j1 + 1]));
                    let v2 = code_v(c0) + cc + seq![(KindV::JumpIfFalse(j1), *span), (KindV::Pop, csp)];
                    assert(code_v(c2) =~= v2);
                    // The first branch and the jump to the end.
                    lemma_code_v_push(c3, c3p[j2]);
                    assert(c3p == c3.push(c3p[j2]));
                    let v3p = v2 + tc + seq![(KindV::Jump(j2), *span)];
                    assert(code_v(c3p) =~= v3p);
                    // The jump over the first branch now lands after it.
                    lemma_code_v_update(c3p, j1, c4[j1]);
                    assert(c4 == c3p.update(j1, c4[j1]));
                    let v4 = v3p.update(j1, (KindV::JumpIfFalse(j2 + 1), *span));
                    assert(code_v(c4) =~= v4);
                    lemma_code_v_push(c4, before_else[j2 + 1]);
                    assert(before_else == c4.push(before_else[j2 + 1]));
                    let v5 = v4.push((KindV::Pop, csp)) + ec;
                    assert(code_v(c5) =~= v5);
                    // The jump at the end of the first branch lands after the second.
                    lemma_code_v_update(c5, j2, code@[j2]);
                    assert(code@ == c5.update(j2, code@[j2]));
                    let want = code_v(c0) + (((cc + seq![(KindV::JumpIfFalse(j2 + 1), *span), (KindV::Pop, csp)]) + (tc
                        + seq![(KindV::Jump(end), *span), (KindV::Pop, csp)])) + ec);
                    assert(code_v(code@) =~= want);
                }
                Ok(())
            },
            _ => Ok(()),
        }
    }

    /// Compiles a call: the callee, the arguments, then `CallValue`.
    fn compile_call(&self, expr: &Expr, code: &mut Vec<Instr>, ctx: &mut FunctionCtx) -> (r: Result<(), CompileError>)
        requires
            jumps_within(old(code)@, old(code)@.len() as int),
            expr is Call,
        ensures
            extends(old(code)@, final(code)@),
            jumps_within(final(code)@, final(code)@.len() as int),
            r is Ok ==> final(code)@.len() > old(code)@.len(),
            r is Ok ==> final(ctx).depth() == old(ctx).depth(),
            emitted(r, old(code)@, final(code)@, expr_code(*expr, old(code)@.len() as int)),
        decreases expr, 1nat,
    {
        let ghost at = code@.len() as int;
        let ghost c0 = code@;
        match expr {
            Expr::Call { callee, args, span } => {
                self.compile_expr(callee, code, ctx)?;
                let ghost c1 = code@;
                let ghost at1 = c1.len() as int;
                let mut i: usize = 0;
                proof {
                    assert forall|j: int| 0 <= j < args@.len() implies decreases_to!(*expr => #[trigger] args@[j]) by {
                        assert(decreases_to!(args@ => args@[j]));
                    }
                    assert(args@.take(0) =~= Seq::<Expr>::empty());
                }
                while i < args.len()
                    invariant
                        forall|j: int| 0 <= j < args@.len() ==> decreases_to!(*expr => #[trigger] args@[j]),
                        extends(old(code)@, code@),
                        extends(c1, code@),
                        jumps_within(code@, code@.len() as int),
                        ctx.depth() == old(ctx).depth(),
                        i <= args@.len(),
                        at1 == c1.len(),
                        *expr == (Expr::Call { callee: *callee, args: *args, span: *span }),
                        at == old(code)@.len(),
                        c0 == old(code)@,
                        expr_code(**callee, at) matches Ok(ca) && at1 == at + ca.len() && code_v(c1) == code_v(c0) + ca,
                        exprs_code(args@.take(i as int), at1) matches Ok(c) && code_v(code@) == code_v(c1) + c,
                    decreases args@.len() - i,
                {
                    proof {
                        assert(decreases_to!(*expr => args@[i as int]));
                        lemma_exprs_step(args@, i as int, at1);
                        assert(code@.len() == code_v(code@).len());
                        assert(code@.len() == at1 + clen(exprs_code(args@.take(i as int), at1)));
                    }
                    let r1 = self.compile_expr(&args[i], code, ctx);
                    match r1 {
                        Err(e) => {
                            proof {
                                lemma_exprs_err(args@, i + 1, at1);
                            }
                            return Err(e);
                        },
                        Ok(()) => {},
                    }
                    proof {
                        let c = exprs_code(args@.take(i as int), at1)->Ok_0;
                        let ce = expr_code(args@[i as int], at1 + c.len())->Ok_0;
                        assert(code_v(code@) =~= code_v(c1) + (c + ce));
                    }
                    i = i + 1;
                }
                proof {
                    assert(args@.take(args@.len() as int) =~= args@);
                }
                let ghost before = code@;
                self.emit_plain(code, InstrKind::CallValue(args.len()), *span);
                proof {
                    lemma_emit_one(before, code@.last());
                    let ca = expr_code(**callee, at)->Ok_0;
                    let c = exprs_code(args@, at1)->Ok_0;
                    assert(code_v(code@) =~= code_v(c0) + ((ca + c) + seq![(KindV::CallValue(args@.len() as int), *span)]));
                }
                Ok(())
            },
            _ => Ok(()),
        }
    }

    /// Compiles `&&` or `||`: the right operand is skipped when the left one decides.
    fn compile_logic(&self, expr: &Expr, code: &mut Vec<Instr>, ctx: &mut FunctionCtx) -> (r: Result<(), CompileError>)
        requires
            jumps_within(old(code)@, old(code)@.len() as int),
            expr matches Expr::Binary { op, .. } && (op is And || op is Or),
        ensures
            extends(old(code)@, final(code)@),
            jumps_within(final(code)@, final(code)@.len() as int),
            r is Ok ==> final(code)@.len() > old(code)@.len(),
            r is Ok ==> final(ctx).depth() == old(ctx).depth(),
            emitted(r, old(code)@, final(code)@, expr_code(*expr, old(code)@.len() as int)),
        decreases expr, 1nat,
    {
        let ghost at = code@.len() as int;
        let ghost c0 = code@;
        match expr {
            Expr::Binary { lhs, op, rhs, span } => match op {
            BinaryOp::And => {
                self.compile_expr(lhs, code, ctx)?;
                let ghost c1 = code@;
                let here = code.len();
                let at2 = self.emit_jump(code, InstrKind::JumpIfFalse(here), *span);
                self.emit_plain(code, InstrKind::Pop, lhs.span());
                let ghost before_rhs = code@;
                self.compile_expr(rhs, code, ctx)?;
                let ghost c3 = code@;
                assert(c3.len() == code.len());
                assert(code@[at2 as int] == before_rhs[at2 as int]);
                self.patch_to_end(code, at2);
                proof {
                    let ca = expr_code(**lhs, at)->Ok_0;
                    let cb = expr_code(**rhs, at + ca.len() + 2)->Ok_0;
                    let j = at + ca.len();
                    let i1 = before_rhs[j];
                    let i2 = before_rhs[j + 1];
                    assert(before_rhs == c1.push(i1).push(i2));
                    lemma_code_v_push(c1, i1);
                    lemma_code_v_push(c1.push(i1), i2);
                    lemma_code_v_update(c3, j, code@[j]);
                    assert(code@ == c3.update(j, code@[j]));
                    assert(code_v(c1) == code_v(c0) + ca);
                    assert(c1.len() == j);
                    assert(code_v(c3) == code_v(before_rhs) + cb);
                    assert(c3.len() == j + 2 + cb.len());
                    assert(instr_v(code@[j]) == (KindV::JumpIfFalse(j + 2 + cb.len()), *span));
                    assert(instr_v(i2) == (KindV::Pop, lhs.span_of()));
                    assert(code_v(code@) =~= code_v(c0) + ((ca + seq![
                        (KindV::JumpIfFalse(j + 2 + cb.len()), *span),
                        (KindV::Pop, lhs.span_of()),
                    ]) + cb));
                }
                Ok(())
            },
            BinaryOp::Or => {
                self.compile_expr(lhs, code, ctx)?;
                let ghost c1 = code@;
                let here = code.len();
                let at2 = self.emit_jump(code, InstrKind::JumpIfTrue(here), *span);
                self.emit_plain(code, InstrKind::Pop, lhs.span());
                let ghost before_rhs = code@;
                self.compile_expr(rhs, code, ctx)?;
                let ghost c3 = code@;
                assert(c3.len() == code.len());
                assert(code@[at2 as int] == before_rhs[at2 as int]);
                self.patch_to_end(code, at2);
                proof {
                    let ca = expr_code(**lhs, at)->Ok_0;
                    let cb = expr_code(**rhs, at + ca.len() + 2)->Ok_0;
                    let j = at + ca.len();
                    let i1 = before_rhs[j];
                    let i2 = before_rhs[j + 1];
                    assert(before_rhs == c1.push(i1).push(i2));
                    lemma_code_v_push(c1, i1);
                    lemma_code_v_push(c1.push(i1), i2);
                    lemma_code_v_update(c3, j, code@[j]);
                    assert(code@ == c3.update(j, code@[j]));
                    assert(code_v(code@) =~= code_v(c0) + ((ca + seq![
                        (KindV::JumpIfTrue(j + 2 + cb.len()), *span),
                        (KindV::Pop, lhs.span_of()),
                    ]) + cb));
                }
                Ok(())
            },
                _ => Ok(()),
            },
            _ => Ok(()),
        }
    }
}

/// The name and parameter names of `f` are those of the declaration `d`.
pub open spec fn stub_of(f: Function, d: Stmt) -> bool {
    match d {
        Stmt::Fn { name, params, .. } => f.name@ == name@ && names_v(f.params@) == params@.map_values(|q: Param| q.name@),
        _ => false,
    }
}

/// A string holding the characters of `t`.
fn owned(t: &str) -> (s: String)
    ensures
        s@ == t@,
{
    let mut s = String::new();
    string_append(&mut s, t);
    assert(s@ =~= t@);
    s
}

/// Compiles a program into a module: one function per top-level `fn`, the builtin `gc`, and
/// the entry function `<main>` (index 0) that runs the statements and returns the tail.
pub fn compile(program: &Program) -> (r: Result<Module, CompileError>)
    ensures
        r matches Ok(m) ==> module_wf(m),
        match compile_outcome(*program) {
            Ok(mc) => r matches Ok(m) && module_of(m, *program, mc),
            Err(e) => r matches Err(x) && x.message@ == e.0 && x.span == e.1,
        },
{
    let ghost sts = program.stmts@;
    let mut c = Compiler::new();
    let main_id = c.define_stub(owned("<main>"), Vec::new(), Span { start: 0, end: 0 });
    c.define_stub(owned("gc"), Vec::new(), Span { start: 0, end: 0 });
    proof {
        assert(sts.take(0) =~= Seq::<Stmt>::empty());
        assert(c.by_name@ =~= fn_index(sts.take(0)));
        assert(c.functions@[0] == c.functions@.drop_last()[0]);
        assert(code_v(c.functions@[1].code@) =~= gc_code());
    }
    let mut i: usize = 0;
    while i < program.stmts.len()
        invariant
            c.wf(),
            main_id == 0,
            sts == program.stmts@,
            i <= sts.len(),
            c.functions@.len() == 2 + fn_decls(sts.take(i as int)).len(),
            c.by_name@ == fn_index(sts.take(i as int)),
            dup_error(sts.take(i as int)) is None,
            c.functions@[0].name@ == "<main>"@,
            c.functions@[0].params@.len() == 0,
            c.functions@[1].name@ == "gc"@,
            c.functions@[1].params@.len() == 0,
            code_v(c.functions@[1].code@) == gc_code(),
            forall|k: int|
                0 <= k < fn_decls(sts.take(i as int)).len() ==> stub_of(
                    #[trigger] c.functions@[k + 2],
                    fn_decls(sts.take(i as int))[k],
                ),
        decreases sts.len() - i,
    {
        proof {
            lemma_stmt_take_step(sts, i as int);
        }
        match &program.stmts[i] {
            Stmt::Fn { name, params, span, .. } => {
                if c.by_name.contains_key(name.as_str()) {
                    let mut m = String::new();
                    string_append(&mut m, "duplicate function: ");
                    string_append(&mut m, name.as_str());
                    proof {
                        lemma_dup_prefix(sts, i + 1);
                    }
                    return Err(CompileError { message: m, span: *span });
                }
                let mut names: Vec<String> = Vec::new();
                let mut j: usize = 0;
                while j < params.len()
                    invariant
                        j <= params@.len(),
                        names@.len() == j,
                        forall|k: int| 0 <= k < j ==> #[trigger] names@[k] == params@[k].name,
                    decreases params@.len() - j,
                {
                    names.push(params[j].name.clone());
                    j = j + 1;
                }
                proof {
                    assert(names_v(names@) =~= params@.map_values(|q: Param| q.name@));
                }
                let ghost before = c.functions@;
                c.define_stub(name.clone(), names, *span);
                proof {
                    let ds = fn_decls(sts.take(i as int));
                    assert(fn_decls(sts.take(i + 1)) == ds.push(sts[i as int]));
                    assert forall|k: int| 0 <= k < ds.len() + 1 implies stub_of(
                        #[trigger] c.functions@[k + 2],
                        ds.push(sts[i as int])[k],
                    ) by {
                        if k < ds.len() {
                            assert(c.functions@[k + 2] == before[k + 2]);
                        }
                    }
                    assert(c.functions@[0] == before[0]);
                    assert(c.functions@[1] == before[1]);
                }
            },
            _ => {},
        }
        i = i + 1;
    }
    proof {
        assert(sts.take(sts.len() as int) =~= sts);
    }
    let ghost ds = fn_decls(sts);
    let mut i: usize = 0;
    proof {
        assert(fn_decls(sts.take(0)) =~= Seq::<Stmt>::empty());
    }
    while i < program.stmts.len()
        invariant
            c.wf(),
            main_id == 0,
            sts == program.stmts@,
            ds == fn_decls(sts),
            i <= sts.len(),
            c.functions@.len() == 2 + ds.len(),
            c.by_name@ == fn_index(sts),
            dup_error(sts) is None,
            bodies_error(fn_decls(sts.take(i as int))) is None,
            fn_decls(sts.take(i as int)).len() <= ds.len(),
            c.functions@[0].name@ == "<main>"@,
            c.functions@[0].params@.len() == 0,
            c.functions@[1].name@ == "gc"@,
            c.functions@[1].params@.len() == 0,
            code_v(c.functions@[1].code@) == gc_code(),
            forall|k: int| 0 <= k < ds.len() ==> stub_of(#[trigger] c.functions@[k + 2], ds[k]),
            forall|k: int|
                0 <= k < fn_decls(sts.take(i as int)).len() ==> fn_compiled(#[trigger] c.functions@[k + 2], ds[k]),
        decreases sts.len() - i,
    {
        proof {
            lemma_stmt_take_step(sts, i as int);
            lemma_decls_prefix(sts, i as int);
            lemma_decls_prefix(sts, i + 1);
        }
        match &program.stmts[i] {
            Stmt::Fn { name, body, span, .. } => {
                let ghost k = fn_decls(sts.take(i as int)).len() as int;
                proof {
                    lemma_index_of_decl(sts, i as int);
                    assert(fn_decls(sts.take(i + 1)) == fn_decls(sts.take(i as int)).push(sts[i as int]));
                }
                let id = match c.by_name.get(name.as_str()) {
                    Some(id) => *id,
                    None => {
                        return Err(compile_failure("internal error: function id missing", *span));
                    },
                };
                proof {
                    assert(c.functions@.len() == c.functions.len());
                }
                assert(id == k + 2);
                let mut params: Vec<String> = Vec::new();
                let mut j: usize = 0;
                while j < c.functions[id].params.len()
                    invariant
                        c.wf(),
                        id < c.functions@.len(),
                        j <= c.functions@[id as int].params@.len(),
                    decreases c.functions@[id as int].params@.len() - j,
                {
                    params.push(c.functions[id].params[j].clone());
                    j = j + 1;
                }
                let mut ctx = FunctionCtx::new_function(&params, Vec::new());
                let ghost before = c.functions@;
                let rb = c.compile_function_body(id, body, &mut ctx);
                match rb {
                    Err(e) => {
                        proof {
                            let d1 = fn_decls(sts.take(i + 1));
                            assert(d1.drop_last() =~= fn_decls(sts.take(i as int)));
                            assert(d1.last() == sts[i as int]);
                            assert(bodies_error(d1) is Some);
                            assert(fn_decls(sts).take(k + 1) == d1);
                            lemma_bodies_prefix(fn_decls(sts), k + 1);
                        }
                        return Err(e);
                    },
                    Ok(()) => {},
                }
                proof {
                    let d1 = fn_decls(sts.take(i + 1));
                    assert(d1.drop_last() =~= fn_decls(sts.take(i as int)));
                    assert(d1.last() == sts[i as int]);
                    assert(bodies_error(d1) is None);
                    assert forall|kk: int| 0 <= kk < ds.len() implies stub_of(#[trigger] c.functions@[kk + 2], ds[kk]) by {
                        if kk + 2 != id {
                            assert(c.functions@[kk + 2] == before[kk + 2]);
                        }
                    }
                    assert forall|kk: int| 0 <= kk < k + 1 implies fn_compiled(#[trigger] c.functions@[kk + 2], ds[kk]) by {
                        if kk < k {
                            assert(c.functions@[kk + 2] == before[kk + 2]);
                        } else {
                            assert(ds[kk] == sts[i as int]);
                            assert(stub_of(before[kk + 2], ds[kk]));
                        }
                    }
                    assert(c.functions@[0] == before[0]);
                    assert(c.functions@[1] == before[1]);
                }
            },
            _ => {},
        }
        i = i + 1;
    }
    proof {
        assert(sts.take(sts.len() as int) =~= sts);
    }
    let mut code: Vec<Instr> = Vec::new();
    let mut ctx = FunctionCtx::new_main();
    let mut i: usize = 0;
    proof {
        assert(sts.take(0) =~= Seq::<Stmt>::empty());
        assert(code_v(code@) =~= Seq::<InstrV>::empty());
    }
    while i < program.stmts.len()
        invariant
            c.wf(),
            main_id == 0,
            sts == program.stmts@,
            ds == fn_decls(sts),
            i <= sts.len(),
            c.functions@.len() == 2 + ds.len(),
            c.by_name@ == fn_index(sts),
            dup_error(sts) is None,
            bodies_error(ds) is None,
            c.functions@[0].name@ == "<main>"@,
            c.functions@[0].params@.len() == 0,
            c.functions@[1].name@ == "gc"@,
            c.functions@[1].params@.len() == 0,
            code_v(c.functions@[1].code@) == gc_code(),
            forall|k: int| 0 <= k < ds.len() ==> fn_compiled(#[trigger] c.functions@[k + 2], ds[k]),
            jumps_within(code@, code@.len() as int),
            stmts_code(sts.take(i as int), 0) matches Ok(cs) && code_v(code@) == cs && code@.len() == cs.len(),
        decreases sts.len() - i,
    {
        proof {
            lemma_stmts_step(sts, i as int, 0);
        }
        let rs = c.compile_stmt(&program.stmts[i], &mut code, &mut ctx);
        match rs {
            Err(e) => {
                proof {
                    lemma_stmts_err(sts, i + 1, 0);
                }
                return Err(e);
            },
            Ok(()) => {},
        }
        proof {
            let cs = stmts_code(sts.take(i as int), 0)->Ok_0;
            let c1 = stmt_code(sts[i as int], cs.len() as int)->Ok_0;
            assert(code_v(code@) =~= cs + c1);
        }
        i = i + 1;
    }
    proof {
        assert(sts.take(sts.len() as int) =~= sts);
    }
    let end_span = match &program.tail {
        Some(e) => e.span(),
        None => {
            if program.stmts.len() > 0 {
                program.stmts[program.stmts.len() - 1].span()
            } else {
                Span { start: 0, end: 0 }
            }
        },
    };
    let ghost c2 = code@;
    match &program.tail {
        Some(e) => c.compile_expr(e, &mut code, &mut ctx)?,
        None => c.emit_plain(&mut code, InstrKind::Push(Value::Unit), end_span),
    }
    let ghost before = code@;
    proof {
        if program.tail is None {
            lemma_emit_one(c2, before.last());
        }
    }
    emit(&mut code, InstrKind::Return, end_span);
    proof {
        assert forall|i: int| 0 <= i < code@.len() implies match #[trigger] jump_target(code@[i].kind) {
            Some(d) => d <= code@.len() - 1,
            None => true,
        } by {
            if i < before.len() {
                assert(code@[i] == before[i]);
            }
        }
        lemma_emit_one(before, code@.last());
        assert(end_span == crate::codegen::end_span(*program));
        assert(code_v(before) == code_v(c2) + tail_code(*program, c2.len() as int)->Ok_0);
        assert(code_v(code@) =~= (code_v(c2) + tail_code(*program, c2.len() as int)->Ok_0) + seq![
            (KindV::Return, end_span),
        ]);
    }
    let ghost main_code_now = code@;
    let ghost before_set = c.functions@;
    let mut f = Function { name: String::new(), params: Vec::new(), code: Vec::new() };
    c.functions.set_and_swap(main_id, &mut f);
    f.code = code;
    c.functions.set_and_swap(main_id, &mut f);
    proof {
        assert forall|i: int| 0 <= i < c.functions@.len() implies code_wf((#[trigger] c.functions@[i]).code@) by {
            if i != 0 {
                assert(c.functions@[i] == before_set[i]);
            }
        }
        assert(c.functions@[0].code@ == main_code_now);
        assert(c.functions@[1] == before_set[1]);
        assert forall|k: int| 0 <= k < ds.len() implies fn_compiled(#[trigger] c.functions@[k + 2], ds[k]) by {
            assert(c.functions@[k + 2] == before_set[k + 2]);
        }
    }
    Ok(Module { functions: c.functions, by_name: c.by_name, main: main_id })
}

/// `code` is well formed (`code_wf`).
pub fn code_is_well_formed(code: &Vec<Instr>) -> (r: bool)
    ensures
        r == code_wf(code@),
{
    let n = code.len();
    if n == 0 {
        return false;
    }
    if !matches!(code[n - 1].kind, InstrKind::Return) {
        return false;
    }
    let mut i: usize = 0;
    while i < n
        invariant
            n == code@.len(),
            i <= n,
            forall|j: int| 0 <= j < i ==> match #[trigger] jump_target(code@[j].kind) {
                Some(d) => d <= n - 1,
                None => true,
            },
        decreases n - i,
    {
        let target: Option<usize> = match &code[i].kind {
            InstrKind::Jump(d) => Some(*d),
            InstrKind::JumpIfFalse(d) => Some(*d),
            InstrKind::JumpIfTrue(d) => Some(*d),
            _ => None,
        };
        match target {
            Some(d) => {
                if d > n - 1 {
                    assert(jump_target(code@[i as int].kind) == Some(d));
                    return false;
                }
            },
            None => {},
        }
        i = i + 1;
    }
    true
}

/// `m` is well formed (`module_wf`): what `compile` guarantees and `run` relies on.
pub fn module_is_well_formed(m: &Module) -> (r: bool)
    ensures
        r == module_wf(*m),
{
    let nf = m.functions.len();
    if m.main >= nf {
        return false;
    }
    let entries = &m.by_name.entries;
    let ne = entries.len();
    let mut i: usize = 0;
    while i < ne
        invariant
            ne == entries@.len(),
            nf == m.functions@.len(),
            m.main < nf,
            *entries == m.by_name.entries,
            i <= ne,
            forall|a: int, b: int| 0 <= a < i && 0 <= b < ne && a != b ==> #[trigger] m.by_name.key_at(a)
                != #[trigger] m.by_name.key_at(b),
            forall|a: int| 0 <= a < i ==> (#[trigger] m.by_name.value_at(a)) < nf,
        decreases ne - i,
    {
        if entries[i].1 >= nf {
            proof {
                if m.by_name.wf() {
                    m.by_name.lemma_entry(i as int);
                    let k = m.by_name.key_at(i as int);
                    assert(m.by_name.value_at(i as int) == entries@[i as int].1);
                    assert(m.by_name@.contains_key(k) && m.by_name@[k] >= nf);
                }
            }
            return false;
        }
        let mut j: usize = 0;
        while j < ne
            invariant
                ne == entries@.len(),
                *entries == m.by_name.entries,
                i < ne,
                j <= ne,
                forall|b: int| 0 <= b < j && b != i ==> m.by_name.key_at(i as int) != #[trigger] m.by_name.key_at(b),
            decreases ne - j,
        {
            if j != i && entries[i].0 == entries[j].0 {
                assert(m.by_name.key_at(i as int) == m.by_name.key_at(j as int));
                return false;
            }
            j = j + 1;
        }
        i = i + 1;
    }
    assert(m.by_name.wf());
    proof {
        assert forall|k: Seq<char>| #[trigger] m.by_name@.contains_key(k) implies m.by_name@[k] < nf by {
            let a = choose|a: int| m.by_name.has_key_at(k, a);
            m.by_name.lemma_entry(a);
        }
    }
    let mut f: usize = 0;
    while f < nf
        invariant
            nf == m.functions@.len(),
            f <= nf,
            forall|g: int| 0 <= g < f ==> code_wf((#[trigger] m.functions@[g]).code@),
        decreases nf - f,
    {
        if !code_is_well_formed(&m.functions[f].code) {
            return false;
        }
        f = f + 1;
    }
    true
}

} // verus!
