use vstd::prelude::*;
use crate::access::{index_spec, write_err, write_ok, write_spec};
use crate::ast::{BinaryOp, Expr, UnaryOp};
use crate::codegen::{KindV, binary_kind, chain, chain_emit, clen, expr_code, kind_v};
use crate::bytecode::{InstrKind, Module};
use crate::heap::{ObjectView, collected, lemma_collected_same_roots, lemma_root_kept, newly_freed};
use crate::ops::{
    binary_defined, binary_result, binary_spec, lemma_equality_ops, lemma_int_arithmetic, lemma_int_comparisons, lemma_int_division,
    lemma_unary_ops, unary_spec,
};
use crate::semantics::{bind, has_value, through};
use crate::span::Span;
use crate::value::{GcRef, Value};

verus! {

/// An activation of a function, as values.
pub struct FrameState {
    pub func: nat,
    pub ip: nat,
    pub stack_base: nat,
    pub scopes: Seq<Map<Seq<char>, Value>>,
    pub closure: Option<usize>,
}

/// The machine, as values: the running frame, the suspended callers (innermost last), the
/// globals, the operand stack, the heap, the number of heap slots handed out so far, the
/// freed slots that allocation takes again (the last one first), and the span of the
/// instruction being run.
pub struct Machine {
    pub frame: FrameState,
    pub frames: Seq<FrameState>,
    pub globals: Map<Seq<char>, Value>,
    pub stack: Seq<Value>,
    pub heap: Map<usize, ObjectView>,
    pub slots: nat,
    pub free: Seq<usize>,
    pub span: Span,
}

/// How one instruction ends: the machine goes on, the entry function returned a value, or
/// an error stopped the machine.
pub enum Step {
    Continue,
    Done(Value),
    Fail(Seq<char>, Span),
}

/// The machine in which a module starts: the entry function at its first instruction, no
/// scopes, nothing on the stack, an empty heap.
pub open spec fn start(m: Module) -> Machine {
    Machine {
        frame: FrameState { func: m.main as nat, ip: 0, stack_base: 0, scopes: Seq::empty(), closure: None },
        frames: Seq::empty(),
        globals: Map::empty(),
        stack: Seq::empty(),
        heap: Map::empty(),
        slots: 0,
        free: Seq::empty(),
        span: Span { start: 0, end: 0 },
    }
}

pub open spec fn fail(c: Machine, msg: Seq<char>) -> Step {
    Step::Fail(msg, c.span)
}

pub open spec fn underflow(c: Machine) -> Step {
    fail(c, "stack underflow"@)
}

/// The value on top of the stack.
pub open spec fn top(c: Machine) -> Value {
    c.stack.last()
}

/// The `n` values on top of the stack, in the order they were pushed.
pub open spec fn top_n(c: Machine, n: nat) -> Seq<Value> {
    c.stack.subrange(c.stack.len() - n, c.stack.len() as int)
}

/// The machine with `n` values popped.
pub open spec fn popped(c: Machine, n: nat) -> Machine {
    Machine { stack: c.stack.subrange(0, c.stack.len() - n), ..c }
}

/// The machine with `v` pushed.
pub open spec fn pushed(c: Machine, v: Value) -> Machine {
    Machine { stack: c.stack.push(v), ..c }
}

pub open spec fn with_frame(c: Machine, f: FrameState) -> Machine {
    Machine { frame: f, ..c }
}

pub open spec fn with_ip(c: Machine, ip: nat) -> Machine {
    with_frame(c, FrameState { ip: ip, ..c.frame })
}

pub open spec fn with_scopes(c: Machine, s: Seq<Map<Seq<char>, Value>>) -> Machine {
    with_frame(c, FrameState { scopes: s, ..c.frame })
}

/// The variable `name` in a list of scopes, innermost (last) first.
pub open spec fn scope_lookup(scopes: Seq<Map<Seq<char>, Value>>, name: Seq<char>) -> Option<Value>
    decreases scopes.len(),
{
    if scopes.len() == 0 {
        None
    } else if scopes.last().contains_key(name) {
        Some(scopes.last()[name])
    } else {
        scope_lookup(scopes.drop_last(), name)
    }
}

/// The variable `name` in the closure environment that `closure` refers to, if any.
pub open spec fn closure_lookup(heap: Map<usize, ObjectView>, closure: Option<usize>, name: Seq<char>) -> Option<Value> {
    match closure {
        Some(h) => if heap.contains_key(h) && heap[h] is Closure && heap[h]->Closure_1.contains_key(name) {
            Some(heap[h]->Closure_1[name])
        } else {
            None
        },
        None => None,
    }
}

/// The local `name` of a frame: its scopes, then its closure environment.
pub open spec fn local_lookup(heap: Map<usize, ObjectView>, f: FrameState, name: Seq<char>) -> Option<Value> {
    match scope_lookup(f.scopes, name) {
        Some(v) => Some(v),
        None => closure_lookup(heap, f.closure, name),
    }
}

/// The variable `name` as the running frame sees it: a local, else a global.
pub open spec fn var_lookup(c: Machine, name: Seq<char>) -> Option<Value> {
    match local_lookup(c.heap, c.frame, name) {
        Some(v) => Some(v),
        None => if c.globals.contains_key(name) {
            Some(c.globals[name])
        } else {
            None
        },
    }
}

/// Assigning in the nearest scope that holds `name`; `None` when no scope holds it.
pub open spec fn scope_assign(scopes: Seq<Map<Seq<char>, Value>>, name: Seq<char>, v: Value) -> Option<
    Seq<Map<Seq<char>, Value>>,
>
    decreases scopes.len(),
{
    if scopes.len() == 0 {
        None
    } else if scopes.last().contains_key(name) {
        Some(scopes.update(scopes.len() - 1, scopes.last().insert(name, v)))
    } else {
        match scope_assign(scopes.drop_last(), name, v) {
            Some(s) => Some(s.push(scopes.last())),
            None => None,
        }
    }
}

/// Assigning to an existing variable: the nearest scope that holds it, else the closure
/// environment of the frame, else the globals; `None` when none holds it.
pub open spec fn var_assign(c: Machine, name: Seq<char>, v: Value) -> Option<Machine> {
    match scope_assign(c.frame.scopes, name, v) {
        Some(s) => Some(with_scopes(c, s)),
        None => if closure_lookup(c.heap, c.frame.closure, name) is Some {
            let h = c.frame.closure->0;
            Some(
                Machine {
                    heap: c.heap.insert(
                        h,
                        ObjectView::Closure(c.heap[h]->Closure_0, c.heap[h]->Closure_1.insert(name, v)),
                    ),
                    ..c
                },
            )
        } else if c.globals.contains_key(name) {
            Some(Machine { globals: c.globals.insert(name, v), ..c })
        } else {
            None
        },
    }
}

/// Binding `name` in the innermost scope of the frame, or among the globals.
pub open spec fn define(c: Machine, name: Seq<char>, v: Value) -> Machine {
    if c.frame.scopes.len() == 0 {
        Machine { globals: c.globals.insert(name, v), ..c }
    } else {
        with_scopes(c, c.frame.scopes.update(c.frame.scopes.len() - 1, c.frame.scopes.last().insert(name, v)))
    }
}

/// The map that `MakeObject` builds from its keys and values.
pub open spec fn keys_map(keys: Seq<String>, vals: Seq<Value>) -> Map<Seq<char>, Value>
    decreases keys.len(),
{
    if keys.len() == 0 || vals.len() == 0 {
        Map::empty()
    } else {
        keys_map(keys.drop_last(), vals.drop_last()).insert(keys.last()@, vals.last())
    }
}

/// The environment that `MakeClosure` captures: each name that is a local of the frame.
pub open spec fn capture_env(heap: Map<usize, ObjectView>, f: FrameState, names: Seq<String>) -> Map<
    Seq<char>,
    Value,
>
    decreases names.len(),
{
    if names.len() == 0 {
        Map::empty()
    } else {
        let m = capture_env(heap, f, names.drop_last());
        match local_lookup(heap, f, names.last()@) {
            Some(v) => m.insert(names.last()@, v),
            None => m,
        }
    }
}

/// The slot that the next allocation takes: the slot freed last, if any, else a new one.
pub open spec fn next_slot(c: Machine) -> usize {
    if c.free.len() > 0 {
        c.free.last()
    } else {
        c.slots as usize
    }
}

/// A fresh heap object: `t` holds `obj` in the slot that `next_slot` picks, and a value that
/// refers to it (an array, an object or a closure, by `kind`) on top of the stack.
pub open spec fn allocs(c: Machine, obj: ObjectView, kind: nat, t: Machine) -> bool {
    let h = next_slot(c);
    t == (Machine {
        heap: c.heap.insert(h, obj),
        slots: if c.free.len() > 0 {
            c.slots
        } else {
            c.slots + 1
        },
        free: if c.free.len() > 0 {
            c.free.drop_last()
        } else {
            c.free
        },
        stack: c.stack.push(
            if kind == 0 {
                Value::Array(GcRef(h))
            } else if kind == 1 {
                Value::Object(GcRef(h))
            } else {
                Value::Closure(GcRef(h))
            },
        ),
        ..c
    })
}

/// A frame holds `x`: as its closure, or in one of its scopes.
pub open spec fn frame_holds(f: FrameState, x: Value) -> bool {
    ||| f.closure is Some && x == Value::Closure(GcRef(f.closure->0))
    ||| exists|j: int| 0 <= j < f.scopes.len() && #[trigger] has_value(f.scopes[j], x)
}

/// `x` is held by a global, by a frame (running or suspended), or by the stack.
pub open spec fn machine_holds(c: Machine, x: Value) -> bool {
    ||| has_value(c.globals, x)
    ||| exists|i: int| 0 <= i < c.frames.len() && #[trigger] frame_holds(c.frames[i], x)
    ||| frame_holds(c.frame, x)
    ||| c.stack.contains(x)
}

/// `r` lists exactly the values the machine holds.
pub open spec fn machine_roots(c: Machine, r: Seq<Value>) -> bool {
    &&& forall|x: Value| #[trigger] machine_holds(c, x) ==> r.contains(x)
    &&& forall|i: int| 0 <= i < r.len() ==> machine_holds(c, #[trigger] r[i])
}

/// Calling function `id` with `args` (already popped) and the closure `closure`.
pub open spec fn calls_fn(m: Module, c: Machine, id: nat, args: Seq<Value>, closure: Option<usize>, r: Step, t: Machine) -> bool {
    if id >= m.functions@.len() {
        r == fail(c, "invalid function id"@)
    } else {
        let f = m.functions@[id as int];
        if f.name@ == "gc"@ {
            if args.len() != 0 {
                r == fail(c, "gc() takes no arguments"@)
            } else {
                r == Step::Continue && exists|roots: Seq<Value>|
                    machine_roots(c, roots) && t == (Machine {
                        heap: #[trigger] collected(c.heap, roots),
                        free: c.free + newly_freed(c.heap, collected(c.heap, roots), c.slots),
                        stack: c.stack.push(Value::Unit),
                        ..c
                    })
            }
        } else {
            let names = f.params@.map_values(|s: String| s@);
            let n = if names.len() <= args.len() {
                names.len()
            } else {
                args.len()
            };
            r == Step::Continue && t == (Machine {
                frame: FrameState {
                    func: id,
                    ip: 0,
                    stack_base: c.stack.len(),
                    scopes: seq![bind(names.take(n as int), args.take(n as int))],
                    closure: closure,
                },
                frames: c.frames.push(c.frame),
                ..c
            })
        }
    }
}

/// Calling the function that a module's name table gives for `name`.
pub open spec fn calls_name(m: Module, c: Machine, name: Seq<char>, args: Seq<Value>, closure: Option<usize>, r: Step, t: Machine) -> bool {
    if m.by_name@.contains_key(name) {
        calls_fn(m, c, m.by_name@[name] as nat, args, closure, r, t)
    } else {
        r == fail(c, "undefined function: "@ + name)
    }
}

/// A binary operator on the two values on top of the stack.
pub open spec fn binary_step(c: Machine, op: BinaryOp, r: Step, t: Machine) -> bool {
    if c.stack.len() < 2 {
        r == underflow(c)
    } else {
        let a = c.stack[c.stack.len() - 2];
        let b = c.stack[c.stack.len() - 1];
        if binary_defined(op, a, b) {
            r == Step::Continue && t.stack.len() > 0 && binary_result(op, a, b, t.stack.last()) && t == pushed(
                popped(c, 2),
                t.stack.last(),
            )
        } else {
            r matches Step::Fail(msg, sp) && binary_spec(op, a, b) == Err::<Value, Seq<char>>(msg) && sp == c.span
        }
    }
}

/// A unary operator on the value on top of the stack.
pub open spec fn unary_step(c: Machine, op: UnaryOp, r: Step, t: Machine) -> bool {
    if c.stack.len() < 1 {
        r == underflow(c)
    } else {
        match unary_spec(op, top(c)) {
            Ok(x) => r == Step::Continue && t == pushed(popped(c, 1), x),
            Err(msg) => r == fail(c, msg),
        }
    }
}

/// A conditional jump that jumps when the condition on top of the stack is `when`.
pub open spec fn branch_step(c: Machine, dst: nat, when: bool, r: Step, t: Machine) -> bool {
    if c.stack.len() < 1 {
        r == underflow(c)
    } else {
        match top(c) {
            Value::Bool(b) => r == Step::Continue && t == if b == when {
                with_ip(c, dst)
            } else {
                c
            },
            v => r == fail(c, "expected bool condition, got "@ + v.debug()),
        }
    }
}

/// Running instruction `k` on machine `c` can end with `r` in machine `t` (on an error, `t`
/// does not matter). Only a string that `+` builds is left open beyond its text.
pub open spec fn executes(m: Module, c: Machine, k: InstrKind, r: Step, t: Machine) -> bool {
    match k {
        InstrKind::Push(v) => r == Step::Continue && t == pushed(c, v),
        InstrKind::Pop => if c.stack.len() < 1 {
            r == underflow(c)
        } else {
            r == Step::Continue && t == popped(c, 1)
        },
        InstrKind::PushScope => r == Step::Continue && t == with_scopes(c, c.frame.scopes.push(Map::empty())),
        InstrKind::PopScope => if c.frame.scopes.len() == 0 {
            r == fail(c, "scope underflow"@)
        } else {
            r == Step::Continue && t == with_scopes(c, c.frame.scopes.drop_last())
        },
        InstrKind::LoadVar(name) => match var_lookup(c, name@) {
            Some(v) => r == Step::Continue && t == pushed(c, v),
            None => if m.by_name@.contains_key(name@) {
                r == Step::Continue && t == pushed(c, Value::Function(name))
            } else {
                r == fail(c, "undefined variable: "@ + name@)
            },
        },
        InstrKind::DefineVar(name) => if c.stack.len() < 1 {
            r == underflow(c)
        } else {
            r == Step::Continue && t == define(popped(c, 1), name@, top(c))
        },
        InstrKind::SetVar(name) => if c.stack.len() < 1 {
            r == underflow(c)
        } else {
            match var_assign(popped(c, 1), name@, top(c)) {
                Some(c2) => r == Step::Continue && t == c2,
                None => r == fail(c, "undefined variable: "@ + name@),
            }
        },
        InstrKind::Neg => unary_step(c, UnaryOp::Neg, r, t),
        InstrKind::Not => unary_step(c, UnaryOp::Not, r, t),
        InstrKind::Add => binary_step(c, BinaryOp::Add, r, t),
        InstrKind::Sub => binary_step(c, BinaryOp::Sub, r, t),
        InstrKind::Mul => binary_step(c, BinaryOp::Mul, r, t),
        InstrKind::Div => binary_step(c, BinaryOp::Div, r, t),
        InstrKind::Mod => binary_step(c, BinaryOp::Mod, r, t),
        InstrKind::Eq => binary_step(c, BinaryOp::Eq, r, t),
        InstrKind::Ne => binary_step(c, BinaryOp::Ne, r, t),
        InstrKind::Lt => binary_step(c, BinaryOp::Lt, r, t),
        InstrKind::Le => binary_step(c, BinaryOp::Le, r, t),
        InstrKind::Gt => binary_step(c, BinaryOp::Gt, r, t),
        InstrKind::Ge => binary_step(c, BinaryOp::Ge, r, t),
        InstrKind::Jump(dst) => r == Step::Continue && t == with_ip(c, dst as nat),
        InstrKind::JumpIfFalse(dst) => branch_step(c, dst as nat, false, r, t),
        InstrKind::JumpIfTrue(dst) => branch_step(c, dst as nat, true, r, t),
        InstrKind::Call(id, argc) => if c.stack.len() < argc {
            r == underflow(c)
        } else {
            calls_fn(m, popped(c, argc as nat), id as nat, top_n(c, argc as nat), None, r, t)
        },
        InstrKind::CallValue(argc) => if c.stack.len() < argc + 1 {
            r == underflow(c)
        } else {
            let args = top_n(c, argc as nat);
            let c1 = popped(c, argc as nat + 1);
            let callee = c.stack[c.stack.len() - argc - 1];
            match callee {
                Value::Function(name) => calls_name(m, c1, name@, args, None, r, t),
                Value::Closure(h) => if c.heap.contains_key(h.0) && c.heap[h.0] is Closure {
                    calls_name(m, c1, c.heap[h.0]->Closure_0, args, Some(h.0), r, t)
                } else {
                    r == fail(c, "invalid closure handle"@)
                },
                v => r == fail(c, "cannot call non-function value: "@ + v.debug()),
            }
        },
        InstrKind::Return => if c.stack.len() < 1 {
            r == underflow(c)
        } else {
            let ret = top(c);
            let rest = c.stack.drop_last();
            let kept = if c.frame.stack_base < rest.len() {
                rest.take(c.frame.stack_base as int)
            } else {
                rest
            };
            if c.frames.len() == 0 {
                r == Step::Done(ret)
            } else {
                r == Step::Continue && t == (Machine {
                    frame: c.frames.last(),
                    frames: c.frames.drop_last(),
                    stack: kept.push(ret),
                    ..c
                })
            }
        },
        InstrKind::MakeArray(n) => if c.stack.len() < n {
            r == underflow(c)
        } else {
            r == Step::Continue && allocs(popped(c, n as nat), ObjectView::Array(top_n(c, n as nat)), 0, t)
        },
        InstrKind::MakeObject(keys) => if c.stack.len() < keys@.len() {
            r == underflow(c)
        } else {
            r == Step::Continue && allocs(
                popped(c, keys@.len()),
                ObjectView::Object(keys_map(keys@, top_n(c, keys@.len()))),
                1,
                t,
            )
        },
        InstrKind::IndexGet => if c.stack.len() < 2 {
            r == underflow(c)
        } else {
            match index_spec(c.heap, c.stack[c.stack.len() - 2], c.stack[c.stack.len() - 1]) {
                Ok(v) => r == Step::Continue && t == pushed(popped(c, 2), v),
                Err(msg) => r == fail(c, msg),
            }
        },
        InstrKind::IndexSet => if c.stack.len() < 3 {
            r == underflow(c)
        } else {
            let base = c.stack[c.stack.len() - 3];
            let index = c.stack[c.stack.len() - 2];
            let value = c.stack[c.stack.len() - 1];
            if write_ok(c.heap, base, index) {
                r == Step::Continue && t == (Machine { heap: write_spec(c.heap, base, index, value), ..popped(c, 3) })
            } else {
                r == fail(c, write_err(c.heap, c.slots, base, index))
            }
        },
        InstrKind::MakeClosure(name, captures) => r == Step::Continue && allocs(
            c,
            ObjectView::Closure(name@, capture_env(c.heap, c.frame, captures@)),
            2,
            t,
        ),
    }
}

/// One cycle of the machine: fetch the instruction at the frame's instruction pointer, move
/// past it, and run it at its span.
pub open spec fn cycle(m: Module, c: Machine, r: Step, t: Machine) -> bool {
    if c.frame.func >= m.functions@.len() {
        r == fail(c, "invalid function id"@)
    } else {
        let f = m.functions@[c.frame.func as int];
        if c.frame.ip >= f.code@.len() {
            r == fail(c, "instruction pointer out of bounds in "@ + f.name@)
        } else {
            let ins = f.code@[c.frame.ip as int];
            executes(m, Machine { span: ins.span, ..with_ip(c, c.frame.ip + 1) }, ins.kind, r, t)
        }
    }
}

/// Running the machine from `c` for at most `n` cycles can end with `r`.
pub open spec fn runs_for(m: Module, c: Machine, n: nat, r: Result<Value, (Seq<char>, Span)>) -> bool
    decreases n,
{
    if n == 0 {
        r == Err::<Value, (Seq<char>, Span)>(("step limit exceeded"@, c.span))
    } else {
        exists|s: Step, t: Machine|
            #[trigger] through(t, s) && cycle(m, c, s, t) && match s {
                Step::Continue => runs_for(m, t, (n - 1) as nat, r),
                Step::Done(v) => r == Ok::<Value, (Seq<char>, Span)>(v),
                Step::Fail(msg, sp) => r == Err::<Value, (Seq<char>, Span)>((msg, sp)),
            }
    }
}

/// A `gc()` call keeps, unchanged, every live object that a value the machine holds refers
/// to: a global, a variable of a running or suspended call, or a value on the operand stack.
pub proof fn lemma_gc_keeps_held(c: Machine, roots: Seq<Value>, x: Value, h: usize)
    requires
        machine_roots(c, roots),
        machine_holds(c, x),
        x.heap_ref() == Some(h),
        c.heap.contains_key(h),
    ensures
        collected(c.heap, roots).contains_key(h),
        collected(c.heap, roots)[h] == c.heap[h],
{
    assert(roots.contains(x));
    let i = choose|i: int| 0 <= i < roots.len() && roots[i] == x;
    assert(roots[i].heap_ref() == Some(h));
    lemma_root_kept(c.heap, roots, h);
}


/// Two values that are equal, or two strings with the same text.
pub open spec fn same_value(a: Value, b: Value) -> bool {
    ||| a == b
    ||| a matches Value::String(x) && b matches Value::String(y) && x@ == y@
}

/// The machines are equal, or equal but for their top values, which are strings with the
/// same text.
pub open spec fn same_machine(t1: Machine, t2: Machine) -> bool {
    ||| t1 == t2
    ||| t1.stack.len() > 0 && t2.stack.len() > 0 && same_value(t1.stack.last(), t2.stack.last())
        && t1 == (Machine { stack: t2.stack.drop_last().push(t1.stack.last()), ..t2 })
}

/// Two lists of roots of one machine hold the same values.
proof fn lemma_roots_agree(c: Machine, r1: Seq<Value>, r2: Seq<Value>)
    requires
        machine_roots(c, r1),
        machine_roots(c, r2),
    ensures
        forall|x: Value| r1.contains(x) <==> r2.contains(x),
{
    assert forall|x: Value| r1.contains(x) <==> r2.contains(x) by {
        if r1.contains(x) {
            let i = choose|i: int| 0 <= i < r1.len() && r1[i] == x;
            assert(machine_holds(c, r1[i]));
        }
        if r2.contains(x) {
            let i = choose|i: int| 0 <= i < r2.len() && r2[i] == x;
            assert(machine_holds(c, r2[i]));
        }
    }
}

proof fn lemma_calls_fn_unique(
    m: Module,
    c: Machine,
    id: nat,
    args: Seq<Value>,
    closure: Option<usize>,
    r1: Step,
    t1: Machine,
    r2: Step,
    t2: Machine,
)
    requires
        calls_fn(m, c, id, args, closure, r1, t1),
        calls_fn(m, c, id, args, closure, r2, t2),
    ensures
        r1 == r2,
        r1 is Continue ==> t1 == t2,
{
    if id < m.functions@.len() && m.functions@[id as int].name@ == "gc"@ && args.len() == 0 {
        let q1 = choose|roots: Seq<Value>|
            machine_roots(c, roots) && t1 == (Machine {
                heap: #[trigger] collected(c.heap, roots),
                free: c.free + newly_freed(c.heap, collected(c.heap, roots), c.slots),
                stack: c.stack.push(Value::Unit),
                ..c
            });
        let q2 = choose|roots: Seq<Value>|
            machine_roots(c, roots) && t2 == (Machine {
                heap: #[trigger] collected(c.heap, roots),
                free: c.free + newly_freed(c.heap, collected(c.heap, roots), c.slots),
                stack: c.stack.push(Value::Unit),
                ..c
            });
        lemma_roots_agree(c, q1, q2);
        lemma_collected_same_roots(c.heap, q1, q2);
    }
}

proof fn lemma_calls_name_unique(
    m: Module,
    c: Machine,
    name: Seq<char>,
    args: Seq<Value>,
    closure: Option<usize>,
    r1: Step,
    t1: Machine,
    r2: Step,
    t2: Machine,
)
    requires
        calls_name(m, c, name, args, closure, r1, t1),
        calls_name(m, c, name, args, closure, r2, t2),
    ensures
        r1 == r2,
        r1 is Continue ==> t1 == t2,
{
    if m.by_name@.contains_key(name) {
        lemma_calls_fn_unique(m, c, m.by_name@[name] as nat, args, closure, r1, t1, r2, t2);
    }
}

proof fn lemma_binary_step_unique(c: Machine, op: BinaryOp, r1: Step, t1: Machine, r2: Step, t2: Machine)
    requires
        binary_step(c, op, r1, t1),
        binary_step(c, op, r2, t2),
    ensures
        r1 == r2,
        r1 is Continue ==> same_machine(t1, t2),
{
    if c.stack.len() >= 2 {
        let a = c.stack[c.stack.len() - 2];
        let b = c.stack[c.stack.len() - 1];
        if binary_defined(op, a, b) {
            let v1 = t1.stack.last();
            let v2 = t2.stack.last();
            let base = popped(c, 2);
            assert(t2.stack.drop_last() =~= base.stack);
            assert(t1.stack =~= t2.stack.drop_last().push(v1));
            match (op, a, b) {
                (BinaryOp::Add, Value::String(_), Value::String(_)) => {
                    assert(same_value(v1, v2));
                    assert(t1 == (Machine { stack: t2.stack.drop_last().push(v1), ..t2 }));
                },
                _ => {
                    assert(v1 == v2);
                },
            }
        }
    }
}

/// One cycle of the machine has one outcome, and one next machine but for a string that
/// `+` builds, which its text alone fixes.
pub proof fn lemma_cycle_unique(m: Module, c: Machine, r1: Step, t1: Machine, r2: Step, t2: Machine)
    requires
        cycle(m, c, r1, t1),
        cycle(m, c, r2, t2),
    ensures
        r1 == r2,
        r1 is Continue ==> same_machine(t1, t2),
{
    if c.frame.func < m.functions@.len() {
        let f = m.functions@[c.frame.func as int];
        if c.frame.ip < f.code@.len() {
            let ins = f.code@[c.frame.ip as int];
            let c0 = Machine { span: ins.span, ..with_ip(c, c.frame.ip + 1) };
            match ins.kind {
                InstrKind::Add => lemma_binary_step_unique(c0, BinaryOp::Add, r1, t1, r2, t2),
                InstrKind::Sub => lemma_binary_step_unique(c0, BinaryOp::Sub, r1, t1, r2, t2),
                InstrKind::Mul => lemma_binary_step_unique(c0, BinaryOp::Mul, r1, t1, r2, t2),
                InstrKind::Div => lemma_binary_step_unique(c0, BinaryOp::Div, r1, t1, r2, t2),
                InstrKind::Mod => lemma_binary_step_unique(c0, BinaryOp::Mod, r1, t1, r2, t2),
                InstrKind::Eq => lemma_binary_step_unique(c0, BinaryOp::Eq, r1, t1, r2, t2),
                InstrKind::Ne => lemma_binary_step_unique(c0, BinaryOp::Ne, r1, t1, r2, t2),
                InstrKind::Lt => lemma_binary_step_unique(c0, BinaryOp::Lt, r1, t1, r2, t2),
                InstrKind::Le => lemma_binary_step_unique(c0, BinaryOp::Le, r1, t1, r2, t2),
                InstrKind::Gt => lemma_binary_step_unique(c0, BinaryOp::Gt, r1, t1, r2, t2),
                InstrKind::Ge => lemma_binary_step_unique(c0, BinaryOp::Ge, r1, t1, r2, t2),
                InstrKind::Call(id, argc) => {
                    if c0.stack.len() >= argc {
                        lemma_calls_fn_unique(
                            m,
                            popped(c0, argc as nat),
                            id as nat,
                            top_n(c0, argc as nat),
                            None,
                            r1,
                            t1,
                            r2,
                            t2,
                        );
                    }
                },
                InstrKind::CallValue(argc) => {
                    if c0.stack.len() >= argc + 1 {
                        let args = top_n(c0, argc as nat);
                        let c1 = popped(c0, argc as nat + 1);
                        let callee = c0.stack[c0.stack.len() - argc - 1];
                        match callee {
                            Value::Function(name) => lemma_calls_name_unique(m, c1, name@, args, None, r1, t1, r2, t2),
                            Value::Closure(h) => {
                                if c0.heap.contains_key(h.0) && c0.heap[h.0] is Closure {
                                    lemma_calls_name_unique(
                                        m,
                                        c1,
                                        c0.heap[h.0]->Closure_0,
                                        args,
                                        Some(h.0),
                                        r1,
                                        t1,
                                        r2,
                                        t2,
                                    );
                                }
                            },
                            _ => {},
                        }
                    }
                },
                _ => {},
            }
        }
    }
}


/// The comparison instructions on the two values on top of the stack: each pops them and
/// pushes the truth of its own comparison. `Eq` pushes whether the values are the same,
/// `Ne` the opposite; on two integers `Lt`, `Le`, `Gt` and `Ge` push `a < b`, `a <= b`,
/// `a > b` and `a >= b`.
pub proof fn lemma_comparison_instructions(m: Module, c: Machine, k: InstrKind, r: Step, t: Machine)
    requires
        c.stack.len() >= 2,
        k is Eq || k is Ne || k is Lt || k is Le || k is Gt || k is Ge,
        !(k is Eq || k is Ne) ==> c.stack[c.stack.len() - 2] is Int && c.stack[c.stack.len() - 1] is Int,
        executes(m, c, k, r, t),
    ensures
        ({
            let a = c.stack[c.stack.len() - 2];
            let b = c.stack[c.stack.len() - 1];
            let x = match k {
                InstrKind::Eq => a.same(b),
                InstrKind::Ne => !a.same(b),
                InstrKind::Lt => a->Int_0 < b->Int_0,
                InstrKind::Le => a->Int_0 <= b->Int_0,
                InstrKind::Gt => a->Int_0 > b->Int_0,
                _ => a->Int_0 >= b->Int_0,
            };
            r == Step::Continue && t == pushed(popped(c, 2), Value::Bool(x))
        }),
{
    let a = c.stack[c.stack.len() - 2];
    let b = c.stack[c.stack.len() - 1];
    match k {
        InstrKind::Eq => lemma_equality_ops(a, b, a.same(b)),
        InstrKind::Ne => lemma_equality_ops(a, b, !a.same(b)),
        _ => lemma_int_comparisons(a->Int_0, b->Int_0, true),
    }
    assert(t.stack.drop_last() =~= popped(c, 2).stack);
    assert(t.stack =~= popped(c, 2).stack.push(t.stack.last()));
}

/// `Ne` and `Eq` on the same two values push opposite booleans.
pub proof fn lemma_ne_opposes_eq(m: Module, c: Machine, r1: Step, t1: Machine, r2: Step, t2: Machine)
    requires
        c.stack.len() >= 2,
        executes(m, c, InstrKind::Eq, r1, t1),
        executes(m, c, InstrKind::Ne, r2, t2),
    ensures
        r1 == Step::Continue,
        r2 == Step::Continue,
        t1.stack.drop_last() == t2.stack.drop_last(),
        t1.stack.last() is Bool && t2.stack.last() is Bool,
        t1.stack.last()->Bool_0 == !t2.stack.last()->Bool_0,
{
    lemma_comparison_instructions(m, c, InstrKind::Eq, r1, t1);
    lemma_comparison_instructions(m, c, InstrKind::Ne, r2, t2);
}


/// The arithmetic instructions `Add`, `Sub` and `Mul` on two integers on top of the stack
/// pop them and push their sum, difference or product when it fits in `i64`, and stop with
/// "integer overflow" when it does not.
pub proof fn lemma_arithmetic_instructions(m: Module, c: Machine, k: InstrKind, r: Step, t: Machine)
    requires
        c.stack.len() >= 2,
        k is Add || k is Sub || k is Mul,
        c.stack[c.stack.len() - 2] is Int,
        c.stack[c.stack.len() - 1] is Int,
        executes(m, c, k, r, t),
    ensures
        ({
            let a = c.stack[c.stack.len() - 2]->Int_0;
            let b = c.stack[c.stack.len() - 1]->Int_0;
            let x: int = match k {
                InstrKind::Add => a + b,
                InstrKind::Sub => a - b,
                _ => a * b,
            };
            &&& i64::MIN <= x <= i64::MAX ==> r == Step::Continue && t == pushed(
                popped(c, 2),
                Value::Int(x as i64),
            )
            &&& !(i64::MIN <= x <= i64::MAX) ==> r == fail(c, "integer overflow"@)
        }),
{
    let a = c.stack[c.stack.len() - 2];
    let b = c.stack[c.stack.len() - 1];
    lemma_int_arithmetic(a->Int_0, b->Int_0, t.stack.last());
    if r is Continue {
        assert(t.stack.drop_last() =~= popped(c, 2).stack);
        assert(t.stack =~= popped(c, 2).stack.push(t.stack.last()));
    }
}


/// A binary expression other than `&&` and `||` compiles to the code of its two operands
/// followed by one instruction, and that instruction, run with the operands' values on top
/// of the stack, pops them and pushes what the operator gives on them, as the interpreter
/// computes it: every operator compiles to an instruction that computes that operator.
pub proof fn lemma_binary_code_computes_op(
    lhs: Expr,
    op: BinaryOp,
    rhs: Expr,
    span: Span,
    at: int,
    k: InstrKind,
    m: Module,
    c: Machine,
    r: Step,
    t: Machine,
)
    requires
        !(op is And || op is Or),
        expr_code(Expr::Binary { lhs: Box::new(lhs), op: op, rhs: Box::new(rhs), span: span }, at) is Ok,
        kind_v(k) == expr_code(Expr::Binary { lhs: Box::new(lhs), op: op, rhs: Box::new(rhs), span: span }, at)->Ok_0.last().0,
        c.stack.len() >= 2,
        binary_defined(op, c.stack[c.stack.len() - 2], c.stack[c.stack.len() - 1]),
        executes(m, c, k, r, t),
    ensures
        ({
            let a = expr_code(lhs, at);
            let b = expr_code(rhs, at + clen(a));
            expr_code(Expr::Binary { lhs: Box::new(lhs), op: op, rhs: Box::new(rhs), span: span }, at)
                == chain_emit(chain(a, b), seq![(kind_v(k), span)])
        }),
        r == Step::Continue,
        t.stack.len() > 0,
        binary_result(op, c.stack[c.stack.len() - 2], c.stack[c.stack.len() - 1], t.stack.last()),
        t == pushed(popped(c, 2), t.stack.last()),
{
    let e = Expr::Binary { lhs: Box::new(lhs), op: op, rhs: Box::new(rhs), span: span };
    let a = expr_code(lhs, at);
    let b = expr_code(rhs, at + clen(a));
    assert(expr_code(e, at) == chain_emit(chain(a, b), seq![(binary_kind(op), span)]));
    assert(expr_code(e, at)->Ok_0.last() == (binary_kind(op), span));
    assert(kind_v(k) == binary_kind(op));
}


/// The unary instructions on the value on top of the stack: `Neg` replaces an integer other
/// than `i64::MIN` by its negation, `Not` a boolean by its negation.
pub proof fn lemma_unary_instructions(m: Module, c: Machine, k: InstrKind, r: Step, t: Machine)
    requires
        c.stack.len() >= 1,
        (k is Neg && top(c) is Int && top(c)->Int_0 != i64::MIN) || (k is Not && top(c) is Bool),
        executes(m, c, k, r, t),
    ensures
        r == Step::Continue,
        k is Neg ==> t == pushed(popped(c, 1), Value::Int((-top(c)->Int_0) as i64)),
        k is Not ==> t == pushed(popped(c, 1), Value::Bool(!top(c)->Bool_0)),
{
    lemma_unary_ops(top(c));
}

/// Integer division and remainder instructions, on a nonnegative dividend and a positive
/// divisor, push the quotient and the remainder; by zero they stop with an error.
pub proof fn lemma_division_instructions(m: Module, c: Machine, k: InstrKind, r: Step, t: Machine)
    requires
        c.stack.len() >= 2,
        k is Div || k is Mod,
        c.stack[c.stack.len() - 2] is Int,
        c.stack[c.stack.len() - 1] is Int,
        executes(m, c, k, r, t),
    ensures
        ({
            let a = c.stack[c.stack.len() - 2]->Int_0;
            let b = c.stack[c.stack.len() - 1]->Int_0;
            &&& b == 0 && k is Div ==> r == fail(c, "division by zero"@)
            &&& b == 0 && k is Mod ==> r == fail(c, "modulo by zero"@)
            &&& a >= 0 && b > 0 && k is Div ==> r == Step::Continue && t == pushed(
                popped(c, 2),
                Value::Int((a / b) as i64),
            )
            &&& a >= 0 && b > 0 && k is Mod ==> r == Step::Continue && t == pushed(
                popped(c, 2),
                Value::Int((a % b) as i64),
            )
        }),
{
    let a = c.stack[c.stack.len() - 2];
    let b = c.stack[c.stack.len() - 1];
    lemma_int_division(a->Int_0, b->Int_0, t.stack.last());
    if r is Continue {
        assert(t.stack.drop_last() =~= popped(c, 2).stack);
        assert(t.stack =~= popped(c, 2).stack.push(t.stack.last()));
    }
}

/// A unary expression compiles to the code of its operand followed by one instruction,
/// and that instruction, run with the operand's value on top of the stack, replaces it by
/// what the operator gives on it.
pub proof fn lemma_unary_code_computes_op(
    op: UnaryOp,
    inner: Expr,
    span: Span,
    at: int,
    k: InstrKind,
    m: Module,
    c: Machine,
    r: Step,
    t: Machine,
)
    requires
        expr_code(Expr::Unary { op: op, expr: Box::new(inner), span: span }, at) is Ok,
        kind_v(k) == expr_code(Expr::Unary { op: op, expr: Box::new(inner), span: span }, at)->Ok_0.last().0,
        c.stack.len() >= 1,
        unary_spec(op, top(c)) is Ok,
        executes(m, c, k, r, t),
    ensures
        expr_code(Expr::Unary { op: op, expr: Box::new(inner), span: span }, at) == chain_emit(
            expr_code(inner, at),
            seq![(kind_v(k), span)],
        ),
        r == Step::Continue,
        t == pushed(popped(c, 1), unary_spec(op, top(c))->Ok_0),
{
    let e = Expr::Unary { op: op, expr: Box::new(inner), span: span };
    let kk = if op is Neg { KindV::Neg } else { KindV::Not };
    assert(expr_code(e, at) == chain_emit(expr_code(inner, at), seq![(kk, span)]));
    assert(expr_code(e, at)->Ok_0.last() == (kk, span));
}


/// The jump instructions: `Jump(d)` goes to `d`; `JumpIfFalse(d)` goes to `d` when the
/// boolean on top of the stack is false and `JumpIfTrue(d)` when it is true, and otherwise
/// each goes on with the next instruction. None of them pops the condition.
pub proof fn lemma_jump_instructions(m: Module, c: Machine, k: InstrKind, r: Step, t: Machine)
    requires
        k is Jump || ((k is JumpIfFalse || k is JumpIfTrue) && c.stack.len() >= 1 && top(c) is Bool),
        executes(m, c, k, r, t),
    ensures
        r == Step::Continue,
        k matches InstrKind::Jump(d) ==> t == with_ip(c, d as nat),
        k matches InstrKind::JumpIfFalse(d) ==> t == if !top(c)->Bool_0 { with_ip(c, d as nat) } else { c },
        k matches InstrKind::JumpIfTrue(d) ==> t == if top(c)->Bool_0 { with_ip(c, d as nat) } else { c },
{
}

/// `lhs && rhs` and `lhs || rhs` short-circuit in compiled code: right after the code of
/// `lhs` comes a conditional jump that, on the value that decides the answer (`false` for
/// `&&`, `true` for `||`), goes to the end of the whole expression's code, keeping that
/// value; on the other value it goes on into the code that drops it and runs `rhs`.
pub proof fn lemma_logic_code_short_circuits(
    lhs: Expr,
    op: BinaryOp,
    rhs: Expr,
    span: Span,
    at: int,
    k: InstrKind,
    m: Module,
    c: Machine,
    r: Step,
    t: Machine,
)
    requires
        op is And || op is Or,
        expr_code(Expr::Binary { lhs: Box::new(lhs), op: op, rhs: Box::new(rhs), span: span }, at) is Ok,
        kind_v(k) == expr_code(Expr::Binary { lhs: Box::new(lhs), op: op, rhs: Box::new(rhs), span: span }, at)->Ok_0.index(
            clen(expr_code(lhs, at)),
        ).0,
        c.stack.len() >= 1,
        top(c) is Bool,
        executes(m, c, k, r, t),
    ensures
        ({
            let code = expr_code(Expr::Binary { lhs: Box::new(lhs), op: op, rhs: Box::new(rhs), span: span }, at)->Ok_0;
            let n = clen(expr_code(lhs, at));
            let decides = if op is And { !top(c)->Bool_0 } else { top(c)->Bool_0 };
            &&& r == Step::Continue
            &&& decides ==> t == with_ip(c, (at + code.len()) as nat)
            &&& !decides ==> t == c && code[n + 1].0 == KindV::Pop
            &&& code.subrange(n + 2, code.len() as int) == expr_code(rhs, at + n + 2)->Ok_0
        }),
{
    let e = Expr::Binary { lhs: Box::new(lhs), op: op, rhs: Box::new(rhs), span: span };
    let a = expr_code(lhs, at);
    let j = at + clen(a);
    let b = expr_code(rhs, j + 2);
    let end = j + 2 + clen(b);
    let jump = if op is And { KindV::JumpIfFalse(end) } else { KindV::JumpIfTrue(end) };
    assert(expr_code(e, at) == chain(chain_emit(a, seq![(jump, span), (KindV::Pop, lhs.span_of())]), b));
    let code = expr_code(e, at)->Ok_0;
    let n = clen(a);
    assert(code == a->Ok_0 + seq![(jump, span), (KindV::Pop, lhs.span_of())] + b->Ok_0);
    assert(code[n] == (jump, span));
    assert(code[n + 1] == (KindV::Pop, lhs.span_of()));
    assert(code.subrange(n + 2, code.len() as int) =~= b->Ok_0);
}


/// Assigning in a list of scopes succeeds exactly when some scope holds the name, and a
/// lookup afterwards finds the value assigned.
proof fn lemma_scope_assign_then_lookup(scopes: Seq<Map<Seq<char>, Value>>, name: Seq<char>, v: Value)
    ensures
        scope_assign(scopes, name, v) is Some <==> scope_lookup(scopes, name) is Some,
        scope_assign(scopes, name, v) matches Some(s2) ==> scope_lookup(s2, name) == Some(v),
    decreases scopes.len(),
{
    if scopes.len() > 0 {
        lemma_scope_assign_then_lookup(scopes.drop_last(), name, v);
        if !scopes.last().contains_key(name) {
            if let Some(s1) = scope_assign(scopes.drop_last(), name, v) {
                let s2 = s1.push(scopes.last());
                assert(s2.drop_last() =~= s1);
            }
        }
    }
}

/// A variable reads back what was just written to it: after `SetVar(x)` succeeds, or after
/// `DefineVar(x)` in a frame that has a scope or no closure variable `x`, `LoadVar(x)`
/// pushes the value that was written.
pub proof fn lemma_write_then_read(
    m: Module,
    c: Machine,
    k: InstrKind,
    r1: Step,
    t1: Machine,
    load: InstrKind,
    r2: Step,
    t2: Machine,
)
    requires
        c.stack.len() >= 1,
        k is SetVar || (k is DefineVar && (c.frame.scopes.len() > 0 || closure_lookup(
            c.heap,
            c.frame.closure,
            k->DefineVar_0@,
        ) is None)),
        load is LoadVar,
        k is SetVar ==> load->LoadVar_0@ == k->SetVar_0@,
        k is DefineVar ==> load->LoadVar_0@ == k->DefineVar_0@,
        executes(m, c, k, r1, t1),
        r1 == Step::Continue,
        executes(m, t1, load, r2, t2),
    ensures
        r2 == Step::Continue,
        t2 == pushed(t1, top(c)),
{
    let v = top(c);
    let c1 = popped(c, 1);
    let name = load->LoadVar_0@;
    if k is SetVar {
        lemma_scope_assign_then_lookup(c1.frame.scopes, name, v);
    } else {
        if c1.frame.scopes.len() > 0 {
            let sc = c1.frame.scopes.update(c1.frame.scopes.len() - 1, c1.frame.scopes.last().insert(name, v));
            assert(sc.last().contains_key(name));
        }
    }
}

} // verus!
