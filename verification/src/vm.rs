use vstd::prelude::*;
use crate::access::{read_index, write_index};
use crate::bytecode::{FuncId, InstrKind, Module};
use crate::heap::{Heap, ObjectView, collected, newly_freed};
use crate::interp::{lemma_bind_step, push_map_values, value_maps};
use crate::machine::{
    FrameState, Machine, Step, binary_step, calls_fn, capture_env, cycle, define, frame_holds, keys_map,
    local_lookup, machine_holds, machine_roots, runs_for, scope_assign, scope_lookup, start, var_assign,
    var_lookup,
};
use crate::namemap::NameMap;
use crate::ops::{apply_binary, apply_unary};
use crate::ast::{BinaryOp, UnaryOp};
use crate::semantics::{bind, has_value, through};
use crate::span::Span;
use crate::text::string_append;
use crate::value::{GcRef, Value};

verus! {

/// An error raised while running bytecode, at the span of the instruction that raised it.
#[derive(Debug)]
pub struct VmError {
    pub message: String,
    pub span: Span,
}

impl VmError {
    pub fn new(message: String, span: Span) -> (e: VmError)
        ensures
            e.message == message,
            e.span == span,
    {
        VmError { message, span }
    }

    /// The message of the error (what `Display` shows).
    pub fn to_text(&self) -> (s: String)
        ensures
            s@ == self.message@,
    {
        self.message.clone()
    }
}

/// The result of a run as plain values.
pub open spec fn vm_result(r: Result<Value, VmError>) -> Result<Value, (Seq<char>, Span)> {
    match r {
        Ok(v) => Ok(v),
        Err(e) => Err((e.message@, e.span)),
    }
}

/// An activation of a function.
struct Frame {
    func: FuncId,
    ip: usize,
    stack_base: usize,
    scopes: Vec<NameMap<Value>>,
    closure: Option<GcRef>,
}

spec fn handle_of(c: Option<GcRef>) -> Option<usize> {
    match c {
        Some(h) => Some(h.0),
        None => None,
    }
}

impl Frame {
    spec fn wf(&self) -> bool {
        forall|i: int| 0 <= i < self.scopes@.len() ==> (#[trigger] self.scopes@[i]).wf()
    }

    spec fn state(&self) -> FrameState {
        FrameState {
            func: self.func as nat,
            ip: self.ip as nat,
            stack_base: self.stack_base as nat,
            scopes: value_maps(self.scopes@),
            closure: handle_of(self.closure),
        }
    }
}

/// The mutable state of the machine.
struct State {
    heap: Heap,
    globals: NameMap<Value>,
    stack: Vec<Value>,
    frames: Vec<Frame>,
    current_span: Span,
}

spec fn frame_states(fs: Seq<Frame>) -> Seq<FrameState> {
    fs.map_values(|f: Frame| f.state())
}

/// The machine that a state and a running frame stand for.
spec fn machine(s: State, f: Frame) -> Machine {
    Machine {
        frame: f.state(),
        frames: frame_states(s.frames@),
        globals: s.globals@,
        stack: s.stack@,
        heap: s.heap@,
        slots: s.heap.slots(),
        free: s.heap.free_slots(),
        span: s.current_span,
    }
}

/// The machine a state stands for, with no frame running (its frame is a placeholder).
spec fn machine_of_state(s: State) -> Machine {
    Machine {
        frame: FrameState { func: 0, ip: 0, stack_base: 0, scopes: Seq::empty(), closure: None },
        frames: frame_states(s.frames@),
        globals: s.globals@,
        stack: s.stack@,
        heap: s.heap@,
        slots: s.heap.slots(),
        free: s.heap.free_slots(),
        span: s.current_span,
    }
}

spec fn step_of(r: Result<Option<Value>, VmError>) -> Step {
    match r {
        Ok(None) => Step::Continue,
        Ok(Some(v)) => Step::Done(v),
        Err(e) => Step::Fail(e.message@, e.span),
    }
}

spec fn unit_step(r: Result<(), VmError>) -> Step {
    match r {
        Ok(()) => Step::Continue,
        Err(e) => Step::Fail(e.message@, e.span),
    }
}

impl State {
    spec fn wf(&self) -> bool {
        &&& self.heap.wf()
        &&& self.globals.wf()
        &&& forall|i: int| 0 <= i < self.frames@.len() ==> (#[trigger] self.frames@[i]).wf()
    }

    fn err(&self, message: &str) -> (e: VmError)
        ensures
            e.message@ == message@,
            e.span == self.current_span,
    {
        let mut m = String::new();
        string_append(&mut m, message);
        VmError::new(m, self.current_span)
    }

    fn err_with(&self, message: &str, v: &Value) -> (e: VmError)
        ensures
            e.message@ == message@ + v.debug(),
            e.span == self.current_span,
    {
        let mut m = String::new();
        string_append(&mut m, message);
        let d = v.to_debug_string();
        string_append(&mut m, d.as_str());
        VmError::new(m, self.current_span)
    }

    fn pop(&mut self) -> (r: Result<Value, VmError>)
        requires
            old(self).wf(),
        ensures
            final(self).wf(),
            final(self).heap == old(self).heap,
            final(self).frames == old(self).frames,
            final(self).globals == old(self).globals,
            final(self).current_span == old(self).current_span,
            old(self).stack@.len() > 0 ==> r == Ok::<Value, VmError>(old(self).stack@.last())
                && final(self).stack@ == old(self).stack@.drop_last(),
            old(self).stack@.len() == 0 ==> (r matches Err(e) && e.message@ == "stack underflow"@ && e.span
                == old(self).current_span),
    {
        match self.stack.pop() {
            Some(v) => Ok(v),
            None => Err(self.err("stack underflow")),
        }
    }

    fn peek_bool(&self) -> (r: Result<bool, VmError>)
        ensures
            self.stack@.len() > 0 && self.stack@.last() is Bool ==> r == Ok::<bool, VmError>(self.stack@.last()->Bool_0),
            self.stack@.len() == 0 ==> (r matches Err(e) && e.message@ == "stack underflow"@ && e.span
                == self.current_span),
            self.stack@.len() > 0 && !(self.stack@.last() is Bool) ==> (r matches Err(e) && e.message@
                == "expected bool condition, got "@ + self.stack@.last().debug() && e.span == self.current_span),
    {
        let n = self.stack.len();
        if n == 0 {
            return Err(self.err("stack underflow"));
        }
        match &self.stack[n - 1] {
            Value::Bool(b) => Ok(*b),
            other => Err(self.err_with("expected bool condition, got ", other)),
        }
    }

    /// Pops `n` values; they come back in the order they were pushed.
    fn pop_n(&mut self, n: usize) -> (r: Result<Vec<Value>, VmError>)
        requires
            old(self).wf(),
        ensures
            final(self).wf(),
            final(self).heap == old(self).heap,
            final(self).frames == old(self).frames,
            final(self).globals == old(self).globals,
            final(self).current_span == old(self).current_span,
            n <= old(self).stack@.len() ==> (r matches Ok(vs) && vs@ == old(self).stack@.subrange(
                old(self).stack@.len() - n,
                old(self).stack@.len() as int,
            ) && final(self).stack@ == old(self).stack@.subrange(0, old(self).stack@.len() - n)),
            n > old(self).stack@.len() ==> (r matches Err(e) && e.message@ == "stack underflow"@ && e.span
                == old(self).current_span),
    {
        let len = self.stack.len();
        if n > len {
            return Err(self.err("stack underflow"));
        }
        let mut vs: Vec<Value> = Vec::new();
        let mut i: usize = len - n;
        while i < len
            invariant
                len == self.stack@.len(),
                n <= len,
                len - n <= i <= len,
                vs@ == self.stack@.subrange(len - n, i as int),
            decreases len - i,
        {
            vs.push(self.stack[i].copy());
            assert(vs@ =~= self.stack@.subrange(len - n, i + 1));
            i = i + 1;
        }
        self.stack.truncate(len - n);
        Ok(vs)
    }
}

/// A virtual machine for a compiled module.
pub struct Vm {
    module: Module,
    state: State,
}

/// The frame in which the entry function starts, as values.
spec fn entry_state(m: Module) -> FrameState {
    FrameState { func: m.main as nat, ip: 0, stack_base: 0, scopes: Seq::empty(), closure: None }
}

/// The local `name` of a frame: its scopes (innermost first), then its closure environment.
fn get_local(heap: &Heap, frame: &Frame, name: &str) -> (r: Option<Value>)
    requires
        heap.wf(),
        frame.wf(),
    ensures
        r == local_lookup(heap@, frame.state(), name@),
{
    let ghost vs = value_maps(frame.scopes@);
    let mut i = frame.scopes.len();
    assert(vs.take(i as int) =~= vs);
    while i > 0
        invariant
            i <= frame.scopes@.len(),
            frame.wf(),
            vs == value_maps(frame.scopes@),
            scope_lookup(vs, name@) == scope_lookup(vs.take(i as int), name@),
        decreases i,
    {
        let ghost pre = vs.take(i as int);
        assert(pre.drop_last() =~= vs.take(i - 1));
        assert(pre.last() == frame.scopes@[i - 1]@);
        match frame.scopes[i - 1].get(name) {
            Some(v) => {
                return Some(v.copy());
            },
            None => {},
        }
        i = i - 1;
    }
    assert(vs.take(0) =~= Seq::<Map<Seq<char>, Value>>::empty());
    match frame.closure {
        Some(h) => match heap.closure_get(h, name) {
            Some(v) => Some(v.copy()),
            None => None,
        },
        None => None,
    }
}

impl Vm {
    /// The machine's state is consistent and its module's names are each bound once.
    pub closed spec fn wf(&self) -> bool {
        self.state.wf() && self.module.by_name.wf()
    }

    /// The module the machine runs.
    pub closed spec fn module(&self) -> Module {
        self.module
    }

    /// The machine at the start of a run: the entry function at its first instruction.
    pub closed spec fn machine(&self) -> Machine {
        Machine { frame: entry_state(self.module), ..machine_of_state(self.state) }
    }

    pub fn new(module: Module) -> (vm: Vm)
        requires
            module.by_name.wf(),
        ensures
            vm.wf(),
            vm.module() == module,
            vm.machine() == start(module),
    {
        let vm = Vm {
            module,
            state: State {
                heap: Heap::new(),
                globals: NameMap::new(),
                stack: Vec::new(),
                frames: Vec::new(),
                current_span: Span { start: 0, end: 0 },
            },
        };
        proof {
            assert(frame_states(vm.state.frames@) =~= Seq::<FrameState>::empty());
            assert(vm.machine() =~= start(vm.module));
        }
        vm
    }

    /// Runs the entry function to its `Return` and gives back the value it returns. The
    /// machine stops with an error after `u64::MAX` cycles; calls may nest as deep as
    /// memory allows.
    pub fn run(self) -> (r: Result<Value, VmError>)
        requires
            self.wf(),
        ensures
            runs_for(self.module(), self.machine(), u64::MAX as nat, vm_result(r)),
    {
        let ghost m0 = self.machine();
        let ghost md = self.module();
        let Vm { module, mut state } = self;
        let main_frame = Frame { func: module.main, ip: 0, stack_base: 0, scopes: Vec::new(), closure: None };
        let mut frame = main_frame;
        let mut steps: u64 = u64::MAX;
        proof {
            assert(value_maps(frame.scopes@) =~= Seq::<Map<Seq<char>, Value>>::empty());
            assert(machine(state, frame) == m0);
        }
        loop
            invariant
                state.wf(),
                frame.wf(),
                module.by_name.wf(),
                md == module,
                md == self.module(),
                m0 == self.machine(),
                forall|r: Result<Value, (Seq<char>, Span)>|
                    #[trigger] runs_for(module, machine(state, frame), steps as nat, r) ==> runs_for(
                        module,
                        m0,
                        u64::MAX as nat,
                        r,
                    ),
            decreases steps,
        {
            let ghost c = machine(state, frame);
            if steps == 0 {
                let e = state.err("step limit exceeded");
                proof {
                    assert(runs_for(module, c, steps as nat, vm_result(Err::<Value, VmError>(e))));
                    assert(runs_for(module, m0, u64::MAX as nat, vm_result(Err::<Value, VmError>(e))));
                }
                return Err(e);
            }
            let func = match module.get_func(frame.func) {
                Some(f) => f,
                None => {
                    let e = state.err("invalid function id");
                    proof {
                        assert(cycle(module, c, Step::Fail(e.message@, e.span), c));
                        assert(through(c, Step::Fail(e.message@, e.span)));
                        assert(runs_for(module, c, steps as nat, vm_result(Err::<Value, VmError>(e))));
                    }
                    return Err(e);
                },
            };
            if frame.ip >= func.code.len() {
                let mut m = String::new();
                string_append(&mut m, "instruction pointer out of bounds in ");
                string_append(&mut m, func.name.as_str());
                let e = VmError::new(m, state.current_span);
                proof {
                    assert(cycle(module, c, Step::Fail(e.message@, e.span), c));
                    assert(through(c, Step::Fail(e.message@, e.span)));
                    assert(runs_for(module, c, steps as nat, vm_result(Err::<Value, VmError>(e))));
                }
                return Err(e);
            }
            let instr = &func.code[frame.ip];
            frame.ip = frame.ip + 1;
            state.current_span = instr.span;
            let r1 = step(&module, &mut state, &mut frame, &instr.kind);
            let ghost t = machine(state, frame);
            proof {
                assert(cycle(module, c, step_of(r1), t));
                assert(through(t, step_of(r1)));
            }
            match r1 {
                Ok(Some(v)) => {
                    proof {
                        assert(runs_for(module, c, steps as nat, vm_result(Ok::<Value, VmError>(v))));
                    }
                    return Ok(v);
                },
                Ok(None) => {},
                Err(e) => {
                    proof {
                        assert(runs_for(module, c, steps as nat, vm_result(Err::<Value, VmError>(e))));
                    }
                    return Err(e);
                },
            }
            let ghost n = steps;
            steps = steps - 1;
            proof {
                assert forall|r: Result<Value, (Seq<char>, Span)>|
                    #[trigger] runs_for(module, t, steps as nat, r) implies runs_for(module, m0, u64::MAX as nat, r) by {
                    assert(runs_for(module, c, n as nat, r));
                }
            }
        }
    }
}

/// Runs a module from its entry function.
pub fn run(module: Module) -> (r: Result<Value, VmError>)
    requires
        module.by_name.wf(),
    ensures
        runs_for(module, start(module), u64::MAX as nat, vm_result(r)),
{
    Vm::new(module).run()
}

/// The value of variable `name` in the current frame: its scopes, its closure environment,
/// then the globals.
fn get_var(state: &State, frame: &Frame, name: &str) -> (r: Option<Value>)
    requires
        state.wf(),
        frame.wf(),
    ensures
        r == var_lookup(machine(*state, *frame), name@),
{
    match get_local(&state.heap, frame, name) {
        Some(v) => Some(v),
        None => match state.globals.get(name) {
            Some(v) => Some(v.copy()),
            None => None,
        },
    }
}

/// Binds `name` in the innermost scope of the frame, or among the globals.
fn define_var(state: &mut State, frame: &mut Frame, name: String, value: Value)
    requires
        old(state).wf(),
        old(frame).wf(),
    ensures
        final(state).wf(),
        final(frame).wf(),
        final(state).current_span == old(state).current_span,
        machine(*final(state), *final(frame)) == define(machine(*old(state), *old(frame)), name@, value),
{
    let ghost k = name@;
    let n = frame.scopes.len();
    if n > 0 {
        let mut last = frame.scopes.pop().unwrap();
        proof {
            assert(last == old(frame).scopes@[n - 1]);
        }
        last.insert(name, value);
        frame.scopes.push(last);
        proof {
            assert(frame.scopes@ =~= old(frame).scopes@.update(n - 1, last));
            assert(value_maps(frame.scopes@) =~= value_maps(old(frame).scopes@).update(
                n - 1,
                value_maps(old(frame).scopes@).last().insert(k, value),
            ));
            assert forall|i: int| 0 <= i < frame.scopes@.len() implies (#[trigger] frame.scopes@[i]).wf() by {
                if i < n - 1 {
                    assert(frame.scopes@[i] == old(frame).scopes@[i]);
                }
            }
            assert(machine(*state, *frame) =~= define(machine(*old(state), *old(frame)), k, value));
        }
    } else {
        state.globals.insert(name, value);
        proof {
            assert(machine(*state, *frame) =~= define(machine(*old(state), *old(frame)), k, value));
        }
    }
}

/// `scope_assign` in terms of the index of the nearest scope that holds the name (`-1`: none).
proof fn lemma_scope_assign_at(all: Seq<Map<Seq<char>, Value>>, name: Seq<char>, v: Value, at: int)
    requires
        -1 <= at < all.len(),
        at >= 0 ==> all[at].contains_key(name),
        forall|j: int| at < j < all.len() ==> !(#[trigger] all[j]).contains_key(name),
    ensures
        at >= 0 ==> scope_assign(all, name, v) == Some(all.update(at, all[at].insert(name, v))),
        at < 0 ==> scope_assign(all, name, v) is None,
    decreases all.len(),
{
    if all.len() > 0 && at < all.len() - 1 {
        let d = all.drop_last();
        assert forall|j: int| at < j < d.len() implies !(#[trigger] d[j]).contains_key(name) by {
            assert(d[j] == all[j]);
        }
        if at >= 0 {
            assert(d[at] == all[at]);
        }
        lemma_scope_assign_at(d, name, v, at);
        assert(!all.last().contains_key(name));
        if at >= 0 {
            assert(d.update(at, d[at].insert(name, v)).push(all.last()) =~= all.update(at, all[at].insert(name, v)));
        }
    }
}

/// Assigns to an existing variable: the nearest scope of the frame that holds it, else its
/// closure environment, else the globals.
fn set_var(state: &mut State, frame: &mut Frame, name: &str, value: Value) -> (r: Result<(), VmError>)
    requires
        old(state).wf(),
        old(frame).wf(),
    ensures
        final(state).wf(),
        final(frame).wf(),
        final(state).current_span == old(state).current_span,
        match var_assign(machine(*old(state), *old(frame)), name@, value) {
            Some(c2) => r is Ok && machine(*final(state), *final(frame)) == c2,
            None => r matches Err(e) && e.message@ == "undefined variable: "@ + name@ && e.span
                == old(state).current_span,
        },
{
    let key = name.to_owned();
    let n = frame.scopes.len();
    let ghost all = value_maps(frame.scopes@);
    let mut i = n;
    while i > 0
        invariant
            state.wf(),
            *state == *old(state),
            frame.wf(),
            *frame == *old(frame),
            all == value_maps(frame.scopes@),
            n == frame.scopes@.len(),
            i <= n,
            key@ == name@,
            forall|j: int| i <= j < n ==> !(#[trigger] all[j]).contains_key(name@),
        decreases i,
    {
        if frame.scopes[i - 1].contains_key(name) {
            let mut sc: NameMap<Value> = NameMap::new();
            frame.scopes.set_and_swap(i - 1, &mut sc);
            let ghost old_sc = sc;
            sc.insert(key, value);
            frame.scopes.set_and_swap(i - 1, &mut sc);
            proof {
                lemma_scope_assign_at(all, name@, value, i - 1);
                assert(value_maps(frame.scopes@) =~= all.update(i - 1, old_sc@.insert(name@, value)));
                assert forall|j: int| 0 <= j < frame.scopes@.len() implies (#[trigger] frame.scopes@[j]).wf() by {
                    if j != i - 1 {
                        assert(frame.scopes@[j] == old(frame).scopes@[j]);
                    }
                }
                assert(machine(*state, *frame) =~= var_assign(machine(*old(state), *old(frame)), name@, value)->0);
            }
            return Ok(());
        }
        i = i - 1;
    }
    proof {
        lemma_scope_assign_at(all, name@, value, -1);
    }
    match frame.closure {
        Some(h) => {
            if state.heap.closure_contains(h, name) {
                let r = state.heap.closure_set(h, key, value);
                proof {
                    assert(machine(*state, *frame) =~= var_assign(machine(*old(state), *old(frame)), name@, value)->0);
                }
                return match r {
                    Ok(()) => Ok(()),
                    Err(m) => Err(VmError::new(m, state.current_span)),
                };
            }
        },
        None => {},
    }
    if state.globals.contains_key(name) {
        state.globals.insert(key, value);
        proof {
            assert(machine(*state, *frame) =~= var_assign(machine(*old(state), *old(frame)), name@, value)->0);
        }
        return Ok(());
    }
    let mut m = String::new();
    string_append(&mut m, "undefined variable: ");
    string_append(&mut m, name);
    Err(VmError::new(m, state.current_span))
}

/// Appends what a frame holds: its closure and the values of its scopes.
fn push_frame_values(roots: &mut Vec<Value>, frame: &Frame)
    requires
        frame.wf(),
    ensures
        forall|x: Value| #[trigger] old(roots)@.contains(x) ==> final(roots)@.contains(x),
        forall|i: int|
            0 <= i < final(roots)@.len() ==> (i < old(roots)@.len() && final(roots)@[i] == old(roots)@[i])
                || frame_holds(frame.state(), #[trigger] final(roots)@[i]),
        forall|x: Value| #[trigger] frame_holds(frame.state(), x) ==> final(roots)@.contains(x),
{
    let ghost st = frame.state();
    let ghost n0 = roots@.len();
    match frame.closure {
        Some(h) => {
            let ghost prev = roots@;
            roots.push(Value::Closure(h));
            proof {
                assert forall|x: Value| prev.contains(x) implies roots@.contains(x) by {
                    vstd::seq_lib::lemma_seq_contains_after_push(prev, Value::Closure(h), x);
                }
                vstd::seq_lib::lemma_seq_contains_after_push(prev, Value::Closure(h), Value::Closure(h));
            }
        },
        None => {},
    }
    let ghost sc = value_maps(frame.scopes@);
    let mut s: usize = 0;
    while s < frame.scopes.len()
        invariant
            frame.wf(),
            st == frame.state(),
            sc == value_maps(frame.scopes@),
            s <= frame.scopes@.len(),
            n0 == old(roots)@.len(),
            roots@.len() >= n0,
            forall|x: Value| #[trigger] old(roots)@.contains(x) ==> roots@.contains(x),
            forall|i: int|
                0 <= i < roots@.len() ==> (i < n0 && roots@[i] == old(roots)@[i]) || frame_holds(st, #[trigger] roots@[i]),
            st.closure is Some ==> roots@.contains(Value::Closure(GcRef(st.closure->0))),
            forall|j: int, k: Seq<char>| 0 <= j < s && #[trigger] sc[j].contains_key(k) ==> roots@.contains(sc[j][k]),
        decreases frame.scopes@.len() - s,
    {
        let ghost n = roots@.len();
        push_map_values(roots, &frame.scopes[s]);
        proof {
            assert(sc[s as int] == frame.scopes@[s as int]@);
            assert forall|i: int| 0 <= i < roots@.len() implies (i < n0 && roots@[i] == old(roots)@[i]) || frame_holds(
                st,
                #[trigger] roots@[i],
            ) by {
                if i >= n {
                    assert(has_value(st.scopes[s as int], roots@[i]));
                }
            }
        }
        s = s + 1;
    }
    proof {
        assert forall|x: Value| #[trigger] frame_holds(st, x) implies roots@.contains(x) by {
            if !(st.closure is Some && x == Value::Closure(GcRef(st.closure->0))) {
                let j = choose|j: int| 0 <= j < st.scopes.len() && #[trigger] has_value(st.scopes[j], x);
                let k = choose|k: Seq<char>| #[trigger] st.scopes[j].contains_key(k) && st.scopes[j][k] == x;
                assert(sc[j].contains_key(k));
            }
        }
    }
}

/// The values a collection must keep: globals, what every frame holds (the running one
/// included), and the operand stack.
fn roots(state: &State, frame: &Frame) -> (r: Vec<Value>)
    requires
        state.wf(),
        frame.wf(),
    ensures
        machine_roots(machine(*state, *frame), r@),
{
    let ghost c = machine(*state, *frame);
    let mut roots: Vec<Value> = Vec::new();
    push_map_values(&mut roots, &state.globals);
    proof {
        assert forall|q: int| 0 <= q < roots@.len() implies machine_holds(c, #[trigger] roots@[q]) by {
            assert(has_value(c.globals, roots@[q]));
        }
    }
    let mut f: usize = 0;
    while f < state.frames.len()
        invariant
            state.wf(),
            frame.wf(),
            c == machine(*state, *frame),
            f <= state.frames@.len(),
            forall|k: Seq<char>| #[trigger] c.globals.contains_key(k) ==> roots@.contains(c.globals[k]),
            forall|a: int, x: Value| 0 <= a < f && #[trigger] frame_holds(c.frames[a], x) ==> roots@.contains(x),
            forall|q: int| 0 <= q < roots@.len() ==> machine_holds(c, #[trigger] roots@[q]),
        decreases state.frames@.len() - f,
    {
        let ghost prev = roots@;
        push_frame_values(&mut roots, &state.frames[f]);
        proof {
            assert(c.frames[f as int] == state.frames@[f as int].state());
            assert forall|q: int| 0 <= q < roots@.len() implies machine_holds(c, #[trigger] roots@[q]) by {
                if !(q < prev.len() && roots@[q] == prev[q]) {
                    assert(frame_holds(c.frames[f as int], roots@[q]));
                }
            }
        }
        f = f + 1;
    }
    let ghost prev = roots@;
    push_frame_values(&mut roots, frame);
    proof {
        assert forall|q: int| 0 <= q < roots@.len() implies machine_holds(c, #[trigger] roots@[q]) by {
            if !(q < prev.len() && roots@[q] == prev[q]) {
                assert(frame_holds(c.frame, roots@[q]));
            }
        }
    }
    let mut i: usize = 0;
    while i < state.stack.len()
        invariant
            state.wf(),
            frame.wf(),
            c == machine(*state, *frame),
            i <= state.stack@.len(),
            forall|k: Seq<char>| #[trigger] c.globals.contains_key(k) ==> roots@.contains(c.globals[k]),
            forall|a: int, x: Value| 0 <= a < c.frames.len() && #[trigger] frame_holds(c.frames[a], x) ==> roots@.contains(x),
            forall|x: Value| #[trigger] frame_holds(c.frame, x) ==> roots@.contains(x),
            forall|j: int| 0 <= j < i ==> roots@.contains(#[trigger] c.stack[j]),
            forall|q: int| 0 <= q < roots@.len() ==> machine_holds(c, #[trigger] roots@[q]),
        decreases state.stack@.len() - i,
    {
        let ghost prev = roots@;
        let v = state.stack[i].copy();
        roots.push(v);
        proof {
            assert forall|x: Value| prev.contains(x) implies roots@.contains(x) by {
                vstd::seq_lib::lemma_seq_contains_after_push(prev, v, x);
            }
            vstd::seq_lib::lemma_seq_contains_after_push(prev, v, v);
            assert forall|q: int| 0 <= q < roots@.len() implies machine_holds(c, #[trigger] roots@[q]) by {
                if q == prev.len() {
                    assert(c.stack[i as int] == v);
                    assert(c.stack.contains(v));
                } else {
                    assert(roots@[q] == prev[q]);
                }
            }
        }
        i = i + 1;
    }
    proof {
        assert forall|x: Value| #[trigger] machine_holds(c, x) implies roots@.contains(x) by {
            if has_value(c.globals, x) {
                let k = choose|k: Seq<char>| #[trigger] c.globals.contains_key(k) && c.globals[k] == x;
            } else if exists|a: int| 0 <= a < c.frames.len() && #[trigger] frame_holds(c.frames[a], x) {
                let a = choose|a: int| 0 <= a < c.frames.len() && #[trigger] frame_holds(c.frames[a], x);
            } else if frame_holds(c.frame, x) {
            } else {
                let j = choose|j: int| 0 <= j < c.stack.len() && c.stack[j] == x;
                assert(roots@.contains(c.stack[j]));
            }
        }
    }
    roots
}

/// The string `s` reads `lit`.
fn text_is(s: &String, lit: &str) -> (r: bool)
    ensures
        r == (s@ == lit@),
{
    let t = lit.to_owned();
    *s == t
}

/// Calls function `id` with `args` (already popped): the callee gets a new frame with one
/// scope that binds its parameters; the builtin `gc` runs a collection instead.
fn call(
    module: &Module,
    state: &mut State,
    frame: &mut Frame,
    id: FuncId,
    args: Vec<Value>,
    closure: Option<GcRef>,
) -> (r: Result<(), VmError>)
    requires
        old(state).wf(),
        old(frame).wf(),
    ensures
        final(state).wf(),
        final(frame).wf(),
        final(state).current_span == old(state).current_span,
        calls_fn(
            *module,
            machine(*old(state), *old(frame)),
            id as nat,
            args@,
            handle_of(closure),
            unit_step(r),
            machine(*final(state), *final(frame)),
        ),
{
    let ghost c = machine(*state, *frame);
    let func_obj = match module.get_func(id) {
        Some(f) => f,
        None => {
            return Err(state.err("invalid function id"));
        },
    };
    if text_is(&func_obj.name, "gc") {
        if args.len() != 0 {
            return Err(state.err("gc() takes no arguments"));
        }
        let rts = roots(state, frame);
        let _ = state.heap.collect_garbage(rts.as_slice());
        state.stack.push(Value::Unit);
        proof {
            assert(machine(*state, *frame) =~= (Machine {
                heap: collected(c.heap, rts@),
                free: c.free + newly_freed(c.heap, collected(c.heap, rts@), c.slots),
                stack: c.stack.push(Value::Unit),
                ..c
            }));
        }
        return Ok(());
    }
    let ghost names = func_obj.params@.map_values(|s: String| s@);
    let mut scope: NameMap<Value> = NameMap::new();
    let mut i: usize = 0;
    proof {
        assert(names.take(0) =~= Seq::<Seq<char>>::empty());
        assert(args@.take(0) =~= Seq::<Value>::empty());
        assert(scope@ =~= bind(names.take(0), args@.take(0)));
    }
    while i < func_obj.params.len() && i < args.len()
        invariant
            scope.wf(),
            names == func_obj.params@.map_values(|s: String| s@),
            i <= func_obj.params@.len(),
            i <= args@.len(),
            scope@ == bind(names.take(i as int), args@.take(i as int)),
        decreases func_obj.params@.len() - i,
    {
        proof {
            lemma_bind_step(names, args@, i as int);
        }
        scope.insert(func_obj.params[i].clone(), args[i].copy());
        i = i + 1;
    }
    let mut scopes: Vec<NameMap<Value>> = Vec::new();
    scopes.push(scope);
    let mut callee = Frame { func: id, ip: 0, stack_base: state.stack.len(), scopes, closure };
    assert(callee.wf());
    std::mem::swap(frame, &mut callee);
    state.frames.push(callee);
    proof {
        assert forall|k: int| 0 <= k < state.frames@.len() implies (#[trigger] state.frames@[k]).wf() by {
            if k < state.frames@.len() - 1 {
                assert(state.frames@[k] == old(state).frames@[k]);
            }
        }
        assert(frame_states(state.frames@) =~= frame_states(old(state).frames@).push(old(frame).state()));
        assert(value_maps(frame.scopes@) =~= seq![scope@]);
        assert(machine(*state, *frame) =~= (Machine {
            frame: FrameState {
                func: id as nat,
                ip: 0,
                stack_base: c.stack.len(),
                scopes: seq![bind(names.take(i as int), args@.take(i as int))],
                closure: handle_of(closure),
            },
            frames: c.frames.push(c.frame),
            ..c
        }));
    }
    Ok(())
}

/// Applies a binary operator to the two values on top of the stack.
fn binary(state: &mut State, op: BinaryOp, frame: &Frame) -> (r: Result<(), VmError>)
    requires
        old(state).wf(),
    ensures
        final(state).wf(),
        final(state).current_span == old(state).current_span,
        binary_step(machine(*old(state), *frame), op, unit_step(r), machine(*final(state), *frame)),
{
    let ghost c = machine(*state, *frame);
    let b = state.pop()?;
    let a = state.pop()?;
    match apply_binary(op, a, b) {
        Ok(v) => {
            state.stack.push(v);
            proof {
                assert(c.stack.subrange(0, c.stack.len() - 2) =~= c.stack.drop_last().drop_last());
                assert(machine(*state, *frame) =~= crate::machine::pushed(crate::machine::popped(c, 2), v));
            }
            Ok(())
        },
        Err(m) => Err(VmError::new(m, state.current_span)),
    }
}

/// Executes one instruction of `frame`, whose instruction pointer already points past it.
/// Returns the value of the program when the entry function returns.
fn step(module: &Module, state: &mut State, frame: &mut Frame, kind: &InstrKind) -> (r: Result<Option<Value>, VmError>)
    requires
        module.by_name.wf(),
        old(state).wf(),
        old(frame).wf(),
    ensures
        final(state).wf(),
        final(frame).wf(),
        final(state).current_span == old(state).current_span,
        crate::machine::executes(
            *module,
            machine(*old(state), *old(frame)),
            *kind,
            step_of(r),
            machine(*final(state), *final(frame)),
        ),
{
    let ghost c = machine(*state, *frame);
    match kind {
        InstrKind::Push(v) => {
            state.stack.push(v.copy());
            proof {
                assert(machine(*state, *frame) =~= crate::machine::pushed(c, *v));
            }
        },
        InstrKind::Pop => {
            state.pop()?;
            proof {
                assert(machine(*state, *frame) =~= crate::machine::popped(c, 1));
            }
        },
        InstrKind::PushScope => {
            frame.scopes.push(NameMap::new());
            proof {
                assert forall|i: int| 0 <= i < frame.scopes@.len() implies (#[trigger] frame.scopes@[i]).wf() by {
                    if i < frame.scopes@.len() - 1 {
                        assert(frame.scopes@[i] == old(frame).scopes@[i]);
                    }
                }
                assert(value_maps(frame.scopes@) =~= c.frame.scopes.push(Map::empty()));
                assert(machine(*state, *frame) =~= crate::machine::with_scopes(c, c.frame.scopes.push(Map::empty())));
            }
        },
        InstrKind::PopScope => {
            if frame.scopes.len() == 0 {
                return Err(state.err("scope underflow"));
            }
            let _ = frame.scopes.pop();
            proof {
                assert forall|i: int| 0 <= i < frame.scopes@.len() implies (#[trigger] frame.scopes@[i]).wf() by {
                    assert(frame.scopes@[i] == old(frame).scopes@[i]);
                }
                assert(value_maps(frame.scopes@) =~= c.frame.scopes.drop_last());
                assert(machine(*state, *frame) =~= crate::machine::with_scopes(c, c.frame.scopes.drop_last()));
            }
        },
        InstrKind::LoadVar(name) => {
            match get_var(state, frame, name.as_str()) {
                Some(v) => {
                    state.stack.push(v);
                    proof {
                        assert(machine(*state, *frame) =~= crate::machine::pushed(c, v));
                    }
                },
                None => {
                    if module.by_name.contains_key(name.as_str()) {
                        state.stack.push(Value::Function(name.clone()));
                        proof {
                            assert(machine(*state, *frame) =~= crate::machine::pushed(c, Value::Function(*name)));
                        }
                    } else {
                        let mut m = String::new();
                        string_append(&mut m, "undefined variable: ");
                        string_append(&mut m, name.as_str());
                        return Err(VmError::new(m, state.current_span));
                    }
                },
            }
        },
        InstrKind::DefineVar(name) => {
            let v = state.pop()?;
            proof {
                assert(machine(*state, *frame) =~= crate::machine::popped(c, 1));
            }
            define_var(state, frame, name.clone(), v);
        },
        InstrKind::SetVar(name) => {
            let v = state.pop()?;
            proof {
                assert(machine(*state, *frame) =~= crate::machine::popped(c, 1));
            }
            set_var(state, frame, name.as_str(), v)?;
        },
        InstrKind::Neg => {
            let v = state.pop()?;
            match apply_unary(UnaryOp::Neg, v) {
                Ok(x) => {
                    state.stack.push(x);
                    proof {
                        assert(machine(*state, *frame) =~= crate::machine::pushed(crate::machine::popped(c, 1), x));
                    }
                },
                Err(m) => {
                    return Err(VmError::new(m, state.current_span));
                },
            }
        },
        InstrKind::Not => {
            let v = state.pop()?;
            match apply_unary(UnaryOp::Not, v) {
                Ok(x) => {
                    state.stack.push(x);
                    proof {
                        assert(machine(*state, *frame) =~= crate::machine::pushed(crate::machine::popped(c, 1), x));
                    }
                },
                Err(m) => {
                    return Err(VmError::new(m, state.current_span));
                },
            }
        },
        InstrKind::Add => binary(state, BinaryOp::Add, frame)?,
        InstrKind::Sub => binary(state, BinaryOp::Sub, frame)?,
        InstrKind::Mul => binary(state, BinaryOp::Mul, frame)?,
        InstrKind::Div => binary(state, BinaryOp::Div, frame)?,
        InstrKind::Mod => binary(state, BinaryOp::Mod, frame)?,
        InstrKind::Eq => binary(state, BinaryOp::Eq, frame)?,
        InstrKind::Ne => binary(state, BinaryOp::Ne, frame)?,
        InstrKind::Lt => binary(state, BinaryOp::Lt, frame)?,
        InstrKind::Le => binary(state, BinaryOp::Le, frame)?,
        InstrKind::Gt => binary(state, BinaryOp::Gt, frame)?,
        InstrKind::Ge => binary(state, BinaryOp::Ge, frame)?,
        InstrKind::Jump(dst) => {
            frame.ip = *dst;
            proof {
                assert(machine(*state, *frame) =~= crate::machine::with_ip(c, *dst as nat));
            }
        },
        InstrKind::JumpIfFalse(dst) => {
            if !state.peek_bool()? {
                frame.ip = *dst;
                proof {
                    assert(machine(*state, *frame) =~= crate::machine::with_ip(c, *dst as nat));
                }
            }
        },
        InstrKind::JumpIfTrue(dst) => {
            if state.peek_bool()? {
                frame.ip = *dst;
                proof {
                    assert(machine(*state, *frame) =~= crate::machine::with_ip(c, *dst as nat));
                }
            }
        },
        InstrKind::Call(id, argc) => {
            let args = state.pop_n(*argc)?;
            proof {
                assert(machine(*state, *frame) =~= crate::machine::popped(c, *argc as nat));
            }
            call(module, state, frame, *id, args, None)?;
        },
        InstrKind::CallValue(argc) => {
            let args = state.pop_n(*argc)?;
            let callee = state.pop()?;
            let ghost c1 = machine(*state, *frame);
            proof {
                assert(c1.stack =~= c.stack.subrange(0, c.stack.len() - (*argc as nat + 1)));
                assert(c1 =~= crate::machine::popped(c, *argc as nat + 1));
                assert(callee == c.stack[c.stack.len() - *argc - 1]);
            }
            let (name, closure) = match callee {
                Value::Function(name) => (name, None),
                Value::Closure(h) => {
                    match state.heap.closure_func_name(h) {
                        Some(n) => (n.to_owned(), Some(h)),
                        None => {
                            return Err(state.err("invalid closure handle"));
                        },
                    }
                },
                other => {
                    return Err(state.err_with("cannot call non-function value: ", &other));
                },
            };
            let id = match module.by_name.get(name.as_str()) {
                Some(id) => *id,
                None => {
                    let mut m = String::new();
                    string_append(&mut m, "undefined function: ");
                    string_append(&mut m, name.as_str());
                    return Err(VmError::new(m, state.current_span));
                },
            };
            call(module, state, frame, id, args, closure)?;
        },
        InstrKind::Return => {
            let ret = state.pop()?;
            let base = frame.stack_base;
            if base < state.stack.len() {
                state.stack.truncate(base);
            }
            match state.frames.pop() {
                Some(caller) => {
                    *frame = caller;
                    proof {
                        assert forall|k: int| 0 <= k < state.frames@.len() implies (#[trigger] state.frames@[k]).wf() by {
                            assert(state.frames@[k] == old(state).frames@[k]);
                        }
                        assert(old(state).frames@[old(state).frames@.len() - 1] == *frame);
                        assert(frame_states(state.frames@) =~= c.frames.drop_last());
                    }
                    state.stack.push(ret);
                    proof {
                        let rest = c.stack.drop_last();
                        let kept = if c.frame.stack_base < rest.len() {
                            rest.take(c.frame.stack_base as int)
                        } else {
                            rest
                        };
                        assert(state.stack@ =~= kept.push(ret));
                    }
                },
                None => {
                    return Ok(Some(ret));
                },
            }
        },
        InstrKind::MakeArray(n) => {
            let elems = state.pop_n(*n)?;
            let ghost c1 = machine(*state, *frame);
            let ghost obj = ObjectView::Array(elems@);
            proof {
                state.heap.lemma_dom_bounded();
            }
            let h = state.heap.alloc_array(elems);
            state.stack.push(Value::Array(h));
            proof {
                assert(c1 =~= crate::machine::popped(c, *n as nat));
                assert(h.0 == crate::machine::next_slot(c1));
                assert(c1.heap.insert(h.0, obj) == machine(*state, *frame).heap);
                assert(machine(*state, *frame) =~= (Machine {
                    heap: c1.heap.insert(h.0, obj),
                    slots: if c1.free.len() > 0 {
                        c1.slots
                    } else {
                        c1.slots + 1
                    },
                    free: if c1.free.len() > 0 {
                        c1.free.drop_last()
                    } else {
                        c1.free
                    },
                    stack: c1.stack.push(Value::Array(h)),
                    ..c1
                }));
            }
        },
        InstrKind::MakeObject(keys) => {
            let values = state.pop_n(keys.len())?;
            let ghost c1 = machine(*state, *frame);
            let mut map: NameMap<Value> = NameMap::new();
            let mut i: usize = 0;
            proof {
                assert(keys@.take(0) =~= Seq::<String>::empty());
                assert(map@ =~= keys_map(keys@.take(0), values@.take(0)));
            }
            while i < keys.len()
                invariant
                    map.wf(),
                    values@.len() == keys@.len(),
                    i <= keys@.len(),
                    map@ == keys_map(keys@.take(i as int), values@.take(i as int)),
                decreases keys@.len() - i,
            {
                proof {
                    assert(keys@.take(i + 1).drop_last() =~= keys@.take(i as int));
                    assert(values@.take(i + 1).drop_last() =~= values@.take(i as int));
                }
                map.insert(keys[i].clone(), values[i].copy());
                i = i + 1;
            }
            proof {
                assert(keys@.take(i as int) =~= keys@);
                assert(values@.take(i as int) =~= values@);
            }
            let ghost obj = ObjectView::Object(map@);
            proof {
                state.heap.lemma_dom_bounded();
            }
            let h = state.heap.alloc_object(map);
            state.stack.push(Value::Object(h));
            proof {
                assert(c1 =~= crate::machine::popped(c, keys@.len()));
                assert(h.0 == crate::machine::next_slot(c1));
                assert(c1.heap.insert(h.0, obj) == machine(*state, *frame).heap);
                assert(machine(*state, *frame) =~= (Machine {
                    heap: c1.heap.insert(h.0, obj),
                    slots: if c1.free.len() > 0 {
                        c1.slots
                    } else {
                        c1.slots + 1
                    },
                    free: if c1.free.len() > 0 {
                        c1.free.drop_last()
                    } else {
                        c1.free
                    },
                    stack: c1.stack.push(Value::Object(h)),
                    ..c1
                }));
            }
        },
        InstrKind::IndexGet => {
            let index = state.pop()?;
            let base = state.pop()?;
            match read_index(&state.heap, base, index) {
                Ok(v) => {
                    state.stack.push(v);
                    proof {
                        assert(c.stack.subrange(0, c.stack.len() - 2) =~= c.stack.drop_last().drop_last());
                        assert(machine(*state, *frame) =~= crate::machine::pushed(crate::machine::popped(c, 2), v));
                    }
                },
                Err(m) => {
                    return Err(VmError::new(m, state.current_span));
                },
            }
        },
        InstrKind::IndexSet => {
            let value = state.pop()?;
            let index = state.pop()?;
            let base = state.pop()?;
            let ghost c1 = machine(*state, *frame);
            match write_index(&mut state.heap, base, index, value) {
                Ok(()) => {
                    proof {
                        assert(c.stack.subrange(0, c.stack.len() - 3) =~= c.stack.drop_last().drop_last().drop_last());
                        assert(machine(*state, *frame) =~= (Machine {
                            heap: crate::access::write_spec(c.heap, base, index, value),
                            ..crate::machine::popped(c, 3)
                        }));
                    }
                },
                Err(m) => {
                    return Err(VmError::new(m, state.current_span));
                },
            }
        },
        InstrKind::MakeClosure(name, captures) => {
            let mut env: NameMap<Value> = NameMap::new();
            let mut i: usize = 0;
            proof {
                assert(captures@.take(0) =~= Seq::<String>::empty());
                assert(env@ =~= capture_env(c.heap, c.frame, captures@.take(0)));
            }
            while i < captures.len()
                invariant
                    env.wf(),
                    state.wf(),
                    frame.wf(),
                    *state == *old(state),
                    *frame == *old(frame),
                    c == machine(*state, *frame),
                    i <= captures@.len(),
                    env@ == capture_env(c.heap, c.frame, captures@.take(i as int)),
                decreases captures@.len() - i,
            {
                proof {
                    assert(captures@.take(i + 1).drop_last() =~= captures@.take(i as int));
                }
                match get_local(&state.heap, frame, captures[i].as_str()) {
                    Some(v) => env.insert(captures[i].clone(), v),
                    None => {},
                }
                i = i + 1;
            }
            proof {
                assert(captures@.take(i as int) =~= captures@);
            }
            let ghost obj = ObjectView::Closure(name@, env@);
            proof {
                state.heap.lemma_dom_bounded();
            }
            let h = state.heap.alloc_closure(name.clone(), env);
            state.stack.push(Value::Closure(h));
            proof {
                assert(h.0 == crate::machine::next_slot(c));
                assert(c.heap.insert(h.0, obj) == machine(*state, *frame).heap);
                assert(machine(*state, *frame) =~= (Machine {
                    heap: c.heap.insert(h.0, obj),
                    slots: if c.free.len() > 0 {
                        c.slots
                    } else {
                        c.slots + 1
                    },
                    free: if c.free.len() > 0 {
                        c.free.drop_last()
                    } else {
                        c.free
                    },
                    stack: c.stack.push(Value::Closure(h)),
                    ..c
                }));
            }
        },
    }
    Ok(None)
}

} // verus!
