use vstd::prelude::*;
use crate::ast::{BinaryOp, Expr, Param, Program, Stmt};
use crate::access::{index_spec, read_index, write_err, write_index, write_ok, write_spec};
use crate::heap::{Heap, ObjectView, collected, copy_env, lemma_root_kept};
use crate::namemap::NameMap;
use crate::ops::{apply_binary, apply_unary, binary_defined, binary_result, binary_spec};
use crate::span::Span;
use crate::text::{decimal, push_decimal, string_append};
use crate::semantics::{
    Exec, ListOut, Outcome, State, bind, calls, collects, decl_fns, enter, evals, evals_list, evals_props,
    evals_stmts, fns, gc_roots, has_value, held, ident_out, index_out, initial_state, leave, object_map,
    next_free, ok_value,
    push_scope, runs, runs_stmt, stops, through, val,
};
use crate::value::{GcRef, Value};

verus! {

/// The fuel a program starts with: each call nested in another takes one unit. It is far
/// beyond what the native stack can hold, so it is the stack, not this bound, that limits
/// how deep calls may nest.
pub const CALL_FUEL: usize = 4294967295;

/// An error raised while evaluating a program.
#[derive(Debug)]
pub struct RuntimeError {
    pub message: String,
    pub span: Span,
}

/// A top-level function: its parameter names and the index of its declaration among the
/// program's statements.
#[derive(Debug)]
pub struct Function {
    pub params: Vec<String>,
    pub decl: usize,
}

impl Function {
    pub fn copy(&self) -> (r: Function)
        ensures
            r.params@.len() == self.params@.len(),
            forall|i: int| 0 <= i < self.params@.len() ==> (#[trigger] r.params@[i])@ == self.params@[i]@,
            r.decl == self.decl,
    {
        let mut params: Vec<String> = Vec::new();
        let mut i: usize = 0;
        while i < self.params.len()
            invariant
                i <= self.params@.len(),
                params@.len() == i,
                forall|j: int| 0 <= j < i ==> (#[trigger] params@[j])@ == self.params@[j]@,
            decreases self.params@.len() - i,
        {
            params.push(self.params[i].clone());
            i = i + 1;
        }
        Function { params, decl: self.decl }
    }
}

/// The variables of the interpreter as values: globals and scopes (innermost last).
pub type ValueVars = (Map<Seq<char>, Value>, Seq<Map<Seq<char>, Value>>);

/// What `name` resolves to: innermost scope first, then the globals.
pub open spec fn lookup_value(v: ValueVars, name: Seq<char>) -> Option<Value>
    decreases v.1.len(),
{
    if v.1.len() == 0 {
        if v.0.contains_key(name) {
            Some(v.0[name])
        } else {
            None
        }
    } else if v.1.last().contains_key(name) {
        Some(v.1.last()[name])
    } else {
        lookup_value((v.0, v.1.drop_last()), name)
    }
}

/// Assigning `val` to an existing variable `name`: the nearest scope that holds it is
/// updated, else the globals; `None` when no scope and no global holds it.
pub open spec fn assign_value(v: ValueVars, name: Seq<char>, val: Value) -> Option<ValueVars>
    decreases v.1.len(),
{
    if v.1.len() == 0 {
        if v.0.contains_key(name) {
            Some((v.0.insert(name, val), v.1))
        } else {
            None
        }
    } else if v.1.last().contains_key(name) {
        Some((v.0, v.1.update(v.1.len() - 1, v.1.last().insert(name, val))))
    } else {
        match assign_value((v.0, v.1.drop_last()), name, val) {
            Some(w) => Some((w.0, w.1.push(v.1.last()))),
            None => None,
        }
    }
}

/// The variables that a list of scopes holds.
pub open spec fn value_maps(s: Seq<NameMap<Value>>) -> Seq<Map<Seq<char>, Value>> {
    s.map_values(|m: NameMap<Value>| m@)
}

/// Every value that a global or a scope variable holds occurs among `roots`.
pub open spec fn covers(vars: ValueVars, roots: Seq<Value>) -> bool {
    &&& forall|k: Seq<char>| #[trigger] vars.0.contains_key(k) ==> roots.contains(vars.0[k])
    &&& forall|j: int, k: Seq<char>|
        0 <= j < vars.1.len() && #[trigger] vars.1[j].contains_key(k) ==> roots.contains(vars.1[j][k])
}

/// Every value that a variable of a suspended caller holds occurs among `roots`.
pub open spec fn covers_saved(saved: Seq<Vec<NameMap<Value>>>, roots: Seq<Value>) -> bool {
    forall|f: int, j: int, k: Seq<char>|
        0 <= f < saved.len() && 0 <= j < saved[f]@.len() && #[trigger] saved[f]@[j]@.contains_key(k)
            ==> roots.contains(saved[f]@[j]@[k])
}

/// What a lookup finds is held by the globals or by one of the scopes.
pub proof fn lemma_lookup_held(v: ValueVars, name: Seq<char>)
    requires
        lookup_value(v, name) is Some,
    ensures
        (v.0.contains_key(name) && v.0[name] == lookup_value(v, name)->0) || exists|j: int|
            0 <= j < v.1.len() && #[trigger] v.1[j].contains_key(name) && v.1[j][name] == lookup_value(v, name)->0,
    decreases v.1.len(),
{
    if v.1.len() > 0 {
        if v.1.last().contains_key(name) {
            assert(v.1[v.1.len() - 1].contains_key(name));
        } else {
            let d = v.1.drop_last();
            lemma_lookup_held((v.0, d), name);
            if !(v.0.contains_key(name) && v.0[name] == lookup_value(v, name)->0) {
                let j = choose|j: int| 0 <= j < d.len() && #[trigger] d[j].contains_key(name) && d[j][name] == lookup_value(v, name)->0;
                assert(v.1[j] == d[j]);
            }
        }
    }
}

/// A collection over roots that cover the variables keeps, unchanged, every live object
/// that a variable refers to.
pub proof fn lemma_variable_target_kept(
    vars: ValueVars,
    roots: Seq<Value>,
    objs: Map<usize, ObjectView>,
    name: Seq<char>,
    h: usize,
)
    requires
        covers(vars, roots),
        lookup_value(vars, name) is Some,
        lookup_value(vars, name)->0.heap_ref() == Some(h),
        objs.contains_key(h),
    ensures
        collected(objs, roots).contains_key(h),
        collected(objs, roots)[h] == objs[h],
{
    lemma_lookup_held(vars, name);
    let x = lookup_value(vars, name)->0;
    assert(roots.contains(x));
    let i = choose|i: int| 0 <= i < roots.len() && roots[i] == x;
    assert(roots[i].heap_ref() == Some(h));
    lemma_root_kept(objs, roots, h);
}

/// After an assignment, a lookup of the assigned name finds the assigned value.
pub proof fn lemma_assign_then_lookup(v: ValueVars, name: Seq<char>, val: Value)
    requires
        assign_value(v, name, val) is Some,
    ensures
        lookup_value(assign_value(v, name, val)->0, name) == Some(val),
    decreases v.1.len(),
{
    if v.1.len() > 0 && !v.1.last().contains_key(name) {
        lemma_assign_then_lookup((v.0, v.1.drop_last()), name, val);
        let w = assign_value((v.0, v.1.drop_last()), name, val)->0;
        assert(w.1.push(v.1.last()).drop_last() =~= w.1);
    } else if v.1.len() > 0 {
        let w = assign_value(v, name, val)->0;
        assert(w.1.drop_last() =~= v.1.drop_last());
    }
}

/// Assignment succeeds exactly on the names that a lookup finds.
pub proof fn lemma_assign_defined(v: ValueVars, name: Seq<char>, val: Value)
    ensures
        assign_value(v, name, val) is Some <==> lookup_value(v, name) is Some,
    decreases v.1.len(),
{
    if v.1.len() > 0 {
        lemma_assign_defined((v.0, v.1.drop_last()), name, val);
    }
}

/// The interpreter's environment: variables, the scopes of suspended callers, the
/// top-level functions and the heap.
pub struct Env {
    globals: NameMap<Value>,
    scopes: Vec<NameMap<Value>>,
    saved: Vec<Vec<NameMap<Value>>>,
    funcs: NameMap<Function>,
    heap: Heap,
}

impl Env {
    /// Globals and scopes.
    pub closed spec fn vars(&self) -> ValueVars {
        (self.globals@, value_maps(self.scopes@))
    }

    /// The number of open scopes.
    pub closed spec fn depth(&self) -> nat {
        self.scopes@.len()
    }

    /// The scopes of suspended callers.
    pub closed spec fn saved_view(&self) -> Seq<Vec<NameMap<Value>>> {
        self.saved@
    }

    /// The declared functions.
    pub closed spec fn funcs_view(&self) -> Map<Seq<char>, Function> {
        self.funcs@
    }

    /// The heap's objects.
    pub closed spec fn heap_view(&self) -> Map<usize, ObjectView> {
        self.heap@
    }

    /// The number of heap slots handed out so far.
    pub closed spec fn heap_slots(&self) -> nat {
        self.heap.slots()
    }

    /// The freed heap slots that allocation takes again, the last one first.
    pub closed spec fn heap_free(&self) -> Seq<usize> {
        self.heap.free_slots()
    }

    /// The state that evaluation reads and changes.
    pub open spec fn state(&self) -> State {
        State {
            vars: self.vars(),
            saved: self.saved_view().map_values(|fr: Vec<NameMap<Value>>| value_maps(fr@)),
            heap: self.heap_view(),
            slots: self.heap_slots(),
            free: self.heap_free(),
        }
    }

    pub closed spec fn wf(&self) -> bool {
        &&& self.globals.wf()
        &&& self.funcs.wf()
        &&& self.heap.wf()
        &&& forall|i: int| 0 <= i < self.scopes@.len() ==> (#[trigger] self.scopes@[i]).wf()
        &&& forall|i: int, j: int|
            0 <= i < self.saved@.len() && 0 <= j < self.saved@[i]@.len() ==> (#[trigger] self.saved@[i]@[j]).wf()
    }

    pub fn new() -> (env: Env)
        ensures
            env.wf(),
            env.vars() == (Map::<Seq<char>, Value>::empty(), Seq::<Map<Seq<char>, Value>>::empty()),
            env.funcs_view() == Map::<Seq<char>, Function>::empty(),
            env.heap_view() == Map::<usize, ObjectView>::empty(),
            env.heap_slots() == 0,
            env.heap_free() == Seq::<usize>::empty(),
            env.saved_view().len() == 0,
    {
        let env = Env {
            globals: NameMap::new(),
            scopes: Vec::new(),
            saved: Vec::new(),
            funcs: NameMap::new(),
            heap: Heap::new(),
        };
        assert(value_maps(env.scopes@) =~= Seq::<Map<Seq<char>, Value>>::empty());
        env
    }

    pub fn push_scope(&mut self)
        requires
            old(self).wf(),
        ensures
            final(self).wf(),
            final(self).vars() == (old(self).vars().0, old(self).vars().1.push(Map::empty())),
            final(self).depth() == old(self).depth() + 1,
            final(self).saved_view() == old(self).saved_view(),
            final(self).funcs_view() == old(self).funcs_view(),
            final(self).heap_view() == old(self).heap_view(),
            final(self).heap_slots() == old(self).heap_slots(),
            final(self).heap_free() == old(self).heap_free(),
    {
        self.scopes.push(NameMap::new());
        assert(value_maps(self.scopes@) =~= value_maps(old(self).scopes@).push(Map::empty()));
    }

    pub fn pop_scope(&mut self)
        requires
            old(self).wf(),
        ensures
            final(self).wf(),
            old(self).depth() > 0 ==> final(self).vars() == (
                old(self).vars().0,
                old(self).vars().1.drop_last(),
            ),
            old(self).depth() > 0 ==> final(self).depth() == old(self).depth() - 1,
            old(self).depth() == 0 ==> final(self).vars() == old(self).vars() && final(self).depth() == 0,
            final(self).saved_view() == old(self).saved_view(),
            final(self).funcs_view() == old(self).funcs_view(),
            final(self).heap_view() == old(self).heap_view(),
            final(self).heap_slots() == old(self).heap_slots(),
            final(self).heap_free() == old(self).heap_free(),
    {
        let _ = self.scopes.pop();
        assert(value_maps(self.scopes@) =~= if old(self).scopes@.len() > 0 {
            value_maps(old(self).scopes@).drop_last()
        } else {
            value_maps(old(self).scopes@)
        });
    }

    /// The value of variable `name`: innermost scope first, then the globals.
    pub fn get_var(&self, name: &str) -> (r: Option<&Value>)
        requires
            self.wf(),
        ensures
            match r {
                Some(v) => lookup_value(self.vars(), name@) == Some(*v),
                None => lookup_value(self.vars(), name@) is None,
            },
    {
        let mut i = self.scopes.len();
        assert(value_maps(self.scopes@).take(i as int) =~= value_maps(self.scopes@));
        while i > 0
            invariant
                self.wf(),
                i <= self.scopes@.len(),
                lookup_value(self.vars(), name@) == lookup_value(
                    (self.globals@, value_maps(self.scopes@).take(i as int)),
                    name@,
                ),
            decreases i,
        {
            let ghost pre = value_maps(self.scopes@).take(i as int);
            assert(pre.drop_last() =~= value_maps(self.scopes@).take(i - 1));
            match self.scopes[i - 1].get(name) {
                Some(v) => {
                    return Some(v);
                },
                None => {},
            }
            i = i - 1;
        }
        assert(value_maps(self.scopes@).take(0) =~= Seq::<Map<Seq<char>, Value>>::empty());
        self.globals.get(name)
    }

    /// Binds `name` in the innermost scope, or among the globals at top level.
    pub fn define_var(&mut self, name: String, value: Value)
        requires
            old(self).wf(),
        ensures
            final(self).wf(),
            final(self).vars() == if old(self).depth() == 0 {
                (old(self).vars().0.insert(name@, value), old(self).vars().1)
            } else {
                (
                    old(self).vars().0,
                    old(self).vars().1.update(
                        old(self).vars().1.len() - 1,
                        old(self).vars().1.last().insert(name@, value),
                    ),
                )
            },
            final(self).depth() == old(self).depth(),
            final(self).saved_view() == old(self).saved_view(),
            final(self).funcs_view() == old(self).funcs_view(),
            final(self).heap_view() == old(self).heap_view(),
            final(self).heap_slots() == old(self).heap_slots(),
            final(self).heap_free() == old(self).heap_free(),
    {
        let ghost k = name@;
        let n = self.scopes.len();
        if n > 0 {
            let mut last = self.scopes.pop().unwrap();
            proof {
                assert(last == old(self).scopes@[n - 1]);
            }
            last.insert(name, value);
            self.scopes.push(last);
            proof {
                assert(self.scopes@ =~= old(self).scopes@.update(n - 1, last));
                assert(value_maps(self.scopes@) =~= value_maps(old(self).scopes@).update(
                    n - 1,
                    value_maps(old(self).scopes@).last().insert(k, value),
                ));
                assert forall|i: int| 0 <= i < self.scopes@.len() implies (#[trigger] self.scopes@[i]).wf() by {
                    if i != n - 1 {
                        assert(self.scopes@[i] == old(self).scopes@[i]);
                    }
                }
            }
        } else {
            self.globals.insert(name, value);
        }
    }

    /// Assigns to an existing variable: the nearest scope that holds it, else the globals.
    pub fn assign_var(&mut self, name: &str, value: Value) -> (r: Result<(), ()>)
        requires
            old(self).wf(),
        ensures
            final(self).wf(),
            match assign_value(old(self).vars(), name@, value) {
                Some(w) => r is Ok && final(self).vars() == w,
                None => r is Err && final(self).vars() == old(self).vars(),
            },
            final(self).depth() == old(self).depth(),
            final(self).saved_view() == old(self).saved_view(),
            final(self).funcs_view() == old(self).funcs_view(),
            final(self).heap_view() == old(self).heap_view(),
            final(self).heap_slots() == old(self).heap_slots(),
            final(self).heap_free() == old(self).heap_free(),
    {
        let key = name.to_owned();
        let n = self.scopes.len();
        let mut i = n;
        let ghost g = self.globals@;
        let ghost all = value_maps(self.scopes@);
        while i > 0
            invariant
                self.wf(),
                self.scopes@ == old(self).scopes@,
                self.saved@ == old(self).saved@,
                self.funcs == old(self).funcs,
                self.heap == old(self).heap,
                self.globals@ == g,
                all == value_maps(self.scopes@),
                g == old(self).globals@,
                n == self.scopes@.len(),
                i <= n,
                key@ == name@,
                forall|j: int| i <= j < n ==> !(#[trigger] all[j]).contains_key(name@),
            decreases i,
        {
            if self.scopes[i - 1].contains_key(name) {
                let mut sc: NameMap<Value> = NameMap::new();
                self.scopes.set_and_swap(i - 1, &mut sc);
                let ghost old_sc = sc;
                sc.insert(key, value);
                self.scopes.set(i - 1, sc);
                proof {
                    lemma_assign_at(g, all, name@, value, i - 1);
                    assert(value_maps(self.scopes@) =~= all.update(i - 1, old_sc@.insert(name@, value)));
                    assert forall|j: int| 0 <= j < self.scopes@.len() implies (#[trigger] self.scopes@[j]).wf() by {
                        if j != i - 1 {
                            assert(self.scopes@[j] == old(self).scopes@[j]);
                        }
                    }
                }
                return Ok(());
            }
            i = i - 1;
        }
        proof {
            lemma_assign_at(g, all, name@, value, -1);
        }
        if self.globals.contains_key(name) {
            self.globals.insert(key, value);
            Ok(())
        } else {
            Err(())
        }
    }

    /// Declares a top-level function.
    pub fn define_fn(&mut self, name: String, func: Function)
        requires
            old(self).wf(),
        ensures
            final(self).wf(),
            final(self).vars() == old(self).vars(),
            final(self).depth() == old(self).depth(),
            final(self).saved_view() == old(self).saved_view(),
            final(self).funcs_view() == old(self).funcs_view().insert(name@, func),
            final(self).heap_view() == old(self).heap_view(),
            final(self).heap_slots() == old(self).heap_slots(),
            final(self).heap_free() == old(self).heap_free(),
    {
        self.funcs.insert(name, func);
    }

    /// The function declared as `name`, if any.
    pub fn get_fn(&self, name: &str) -> (r: Option<&Function>)
        requires
            self.wf(),
        ensures
            match r {
                Some(f) => self.funcs_view().contains_key(name@) && *f == self.funcs_view()[name@],
                None => !self.funcs_view().contains_key(name@),
            },
    {
        self.funcs.get(name)
    }

    /// Removes and returns the scopes, leaving only the globals visible.
    pub fn take_scopes(&mut self) -> (r: Vec<NameMap<Value>>)
        requires
            old(self).wf(),
        ensures
            final(self).wf(),
            final(self).vars() == (old(self).vars().0, Seq::<Map<Seq<char>, Value>>::empty()),
            final(self).depth() == 0,
            value_maps(r@) == old(self).vars().1,
            forall|i: int| 0 <= i < r@.len() ==> (#[trigger] r@[i]).wf(),
            final(self).saved_view() == old(self).saved_view(),
            final(self).funcs_view() == old(self).funcs_view(),
            final(self).heap_view() == old(self).heap_view(),
            final(self).heap_slots() == old(self).heap_slots(),
            final(self).heap_free() == old(self).heap_free(),
    {
        let mut r: Vec<NameMap<Value>> = Vec::new();
        std::mem::swap(&mut r, &mut self.scopes);
        assert(value_maps(self.scopes@) =~= Seq::<Map<Seq<char>, Value>>::empty());
        r
    }

    /// Puts back scopes that `take_scopes` removed.
    pub fn restore_scopes(&mut self, scopes: Vec<NameMap<Value>>)
        requires
            old(self).wf(),
            forall|i: int| 0 <= i < scopes@.len() ==> (#[trigger] scopes@[i]).wf(),
        ensures
            final(self).wf(),
            final(self).vars() == (old(self).vars().0, value_maps(scopes@)),
            final(self).depth() == scopes@.len(),
            final(self).saved_view() == old(self).saved_view(),
            final(self).funcs_view() == old(self).funcs_view(),
            final(self).heap_view() == old(self).heap_view(),
            final(self).heap_slots() == old(self).heap_slots(),
            final(self).heap_free() == old(self).heap_free(),
    {
        self.scopes = scopes;
    }

    /// The values a collection must keep: every global, every variable in scope, and the
    /// variables of suspended callers.
    pub fn roots(&self) -> (r: Vec<Value>)
        requires
            self.wf(),
        ensures
            covers(self.vars(), r@),
            covers_saved(self.saved_view(), r@),
            gc_roots(self.state(), r@),
    {
        let ghost st = self.state();
        let mut roots: Vec<Value> = Vec::new();
        push_map_values(&mut roots, &self.globals);
        proof {
            assert forall|q: int| 0 <= q < roots@.len() implies held(st, #[trigger] roots@[q]) by {
                assert(has_value(st.vars.0, roots@[q]));
            }
        }
        let ghost g = self.globals@;
        let ghost sc = value_maps(self.scopes@);
        let mut i: usize = 0;
        while i < self.scopes.len()
            invariant
                self.wf(),
                st == self.state(),
                i <= self.scopes@.len(),
                g == self.globals@,
                sc == value_maps(self.scopes@),
                forall|k: Seq<char>| #[trigger] g.contains_key(k) ==> roots@.contains(g[k]),
                forall|j: int, k: Seq<char>|
                    0 <= j < i && #[trigger] sc[j].contains_key(k) ==> roots@.contains(sc[j][k]),
                forall|q: int| 0 <= q < roots@.len() ==> held(st, #[trigger] roots@[q]),
            decreases self.scopes@.len() - i,
        {
            let ghost n = roots@.len();
            push_map_values(&mut roots, &self.scopes[i]);
            proof {
                assert(sc[i as int] == self.scopes@[i as int]@);
                assert forall|q: int| 0 <= q < roots@.len() implies held(st, #[trigger] roots@[q]) by {
                    if q >= n {
                        assert(has_value(st.vars.1[i as int], roots@[q]));
                    }
                }
            }
            i = i + 1;
        }
        assert(covers(self.vars(), roots@));
        let mut f: usize = 0;
        while f < self.saved.len()
            invariant
                self.wf(),
                st == self.state(),
                f <= self.saved@.len(),
                covers(self.vars(), roots@),
                forall|a: int, j: int, k: Seq<char>|
                    0 <= a < f && 0 <= j < self.saved@[a]@.len() && #[trigger] self.saved@[a]@[j]@.contains_key(k)
                        ==> roots@.contains(self.saved@[a]@[j]@[k]),
                forall|q: int| 0 <= q < roots@.len() ==> held(st, #[trigger] roots@[q]),
            decreases self.saved@.len() - f,
        {
            let frame = &self.saved[f];
            let mut j: usize = 0;
            while j < frame.len()
                invariant
                    self.wf(),
                    st == self.state(),
                    f < self.saved@.len(),
                    frame == self.saved@[f as int],
                    j <= frame@.len(),
                    covers(self.vars(), roots@),
                    forall|a: int, b: int, k: Seq<char>|
                        0 <= a < f && 0 <= b < self.saved@[a]@.len() && #[trigger] self.saved@[a]@[b]@.contains_key(k)
                            ==> roots@.contains(self.saved@[a]@[b]@[k]),
                    forall|b: int, k: Seq<char>|
                        0 <= b < j && #[trigger] frame@[b]@.contains_key(k) ==> roots@.contains(frame@[b]@[k]),
                    forall|q: int| 0 <= q < roots@.len() ==> held(st, #[trigger] roots@[q]),
                decreases frame@.len() - j,
            {
                let ghost n = roots@.len();
                push_map_values(&mut roots, &frame[j]);
                proof {
                    assert(st.saved[f as int] == value_maps(frame@));
                    assert(st.saved[f as int][j as int] == frame@[j as int]@);
                    assert forall|q: int| 0 <= q < roots@.len() implies held(st, #[trigger] roots@[q]) by {
                        if q >= n {
                            assert(has_value(st.saved[f as int][j as int], roots@[q]));
                        }
                    }
                }
                j = j + 1;
            }
            f = f + 1;
        }
        proof {
            assert forall|x: Value| #[trigger] held(st, x) implies roots@.contains(x) by {
                if has_value(st.vars.0, x) {
                    let k = choose|k: Seq<char>| #[trigger] st.vars.0.contains_key(k) && st.vars.0[k] == x;
                    assert(g.contains_key(k));
                } else if exists|j: int| 0 <= j < st.vars.1.len() && #[trigger] has_value(st.vars.1[j], x) {
                    let j = choose|j: int| 0 <= j < st.vars.1.len() && #[trigger] has_value(st.vars.1[j], x);
                    let k = choose|k: Seq<char>| #[trigger] st.vars.1[j].contains_key(k) && st.vars.1[j][k] == x;
                    assert(sc[j].contains_key(k));
                } else {
                    let (a, b) = choose|a: int, b: int|
                        0 <= a < st.saved.len() && 0 <= b < st.saved[a].len() && #[trigger] has_value(st.saved[a][b], x);
                    let k = choose|k: Seq<char>| #[trigger] st.saved[a][b].contains_key(k) && st.saved[a][b][k] == x;
                    assert(st.saved[a] == value_maps(self.saved@[a]@));
                    assert(st.saved[a][b] == self.saved@[a]@[b]@);
                    assert(self.saved@[a]@[b]@.contains_key(k));
                }
            }
        }
        roots
    }

    /// Collects the heap with every variable, in scope or of a suspended caller, as a root.
    /// The variables are untouched, and every live object that a variable refers to stays,
    /// unchanged.
    pub fn collect_garbage(&mut self)
        requires
            old(self).wf(),
        ensures
            final(self).wf(),
            final(self).vars() == old(self).vars(),
            final(self).depth() == old(self).depth(),
            final(self).saved_view() == old(self).saved_view(),
            final(self).funcs_view() == old(self).funcs_view(),
            collects(old(self).state(), final(self).state()),
            exists|r: Seq<Value>|
                covers(old(self).vars(), r) && covers_saved(old(self).saved_view(), r)
                    && final(self).heap_view() == #[trigger] collected(old(self).heap_view(), r),
            forall|name: Seq<char>, h: usize|
                #[trigger] lookup_value(old(self).vars(), name) is Some
                    && lookup_value(old(self).vars(), name)->0.heap_ref() == Some(h)
                    && #[trigger] old(self).heap_view().contains_key(h)
                    ==> final(self).heap_view().contains_key(h) && final(self).heap_view()[h] == old(self).heap_view()[h],
    {
        let roots = self.roots();
        let _ = self.heap.collect_garbage(roots.as_slice());
        proof {
            assert(self.state().heap == collected(old(self).state().heap, roots@));
            let ov = old(self).vars();
            let oh = old(self).heap_view();
            assert(covers(ov, roots@));
            assert forall|name: Seq<char>, h: usize|
                #[trigger] lookup_value(ov, name) is Some && lookup_value(ov, name)->0.heap_ref() == Some(h)
                    && #[trigger] oh.contains_key(h) implies self.heap_view().contains_key(h) && self.heap_view()[h] == oh[h] by {
                lemma_variable_target_kept(ov, roots@, oh, name, h);
            }
        }
    }
}

/// `assign_value` in terms of the index of the nearest scope that holds the name (`-1`: none).
proof fn lemma_assign_at(
    g: Map<Seq<char>, Value>,
    all: Seq<Map<Seq<char>, Value>>,
    name: Seq<char>,
    val: Value,
    at: int,
)
    requires
        -1 <= at < all.len(),
        at >= 0 ==> all[at].contains_key(name),
        forall|j: int| at < j < all.len() ==> !(#[trigger] all[j]).contains_key(name),
    ensures
        at >= 0 ==> assign_value((g, all), name, val) == Some((g, all.update(at, all[at].insert(name, val)))),
        at < 0 ==> assign_value((g, all), name, val) == if g.contains_key(name) {
            Some((g.insert(name, val), all))
        } else {
            None
        },
    decreases all.len(),
{
    if all.len() > 0 && at < all.len() - 1 {
        let d = all.drop_last();
        assert forall|j: int| at < j < d.len() implies !(#[trigger] d[j]).contains_key(name) by {
            assert(d[j] == all[j]);
        }
        if at >= 0 {
            assert(d[at] == all[at]);
        }
        lemma_assign_at(g, d, name, val, at);
        assert(!all.last().contains_key(name));
        if at >= 0 {
            assert(d.update(at, d[at].insert(name, val)).push(all.last()) =~= all.update(at, all[at].insert(name, val)));
        } else {
            assert(d.push(all.last()) =~= all);
        }
    } else if all.len() > 0 {
        assert(at == all.len() - 1);
    }
}

/// Appends the values of a map's entries: afterwards every value the map holds is among
/// the roots, and so is every value that was among them before.
pub(crate) fn push_map_values(roots: &mut Vec<Value>, m: &NameMap<Value>)
    requires
        m.wf(),
    ensures
        final(roots)@.len() >= old(roots)@.len(),
        forall|i: int| 0 <= i < old(roots)@.len() ==> final(roots)@[i] == old(roots)@[i],
        forall|i: int|
            old(roots)@.len() <= i < final(roots)@.len() ==> has_value(m@, #[trigger] final(roots)@[i]),
        forall|x: Value| #[trigger] old(roots)@.contains(x) ==> final(roots)@.contains(x),
        forall|k: Seq<char>| #[trigger] m@.contains_key(k) ==> final(roots)@.contains(m@[k]),
{
    let ghost n0 = roots@.len();
    let mut i: usize = 0;
    while i < m.entries.len()
        invariant
            i <= m.entries@.len(),
            roots@.len() == n0 + i,
            n0 == old(roots)@.len(),
            forall|j: int| 0 <= j < n0 ==> roots@[j] == old(roots)@[j],
            forall|j: int| n0 <= j < roots@.len() ==> roots@[j] == m.entries@[j - n0].1,
            forall|x: Value| #[trigger] old(roots)@.contains(x) ==> roots@.contains(x),
            forall|e: int| 0 <= e < i ==> roots@.contains(#[trigger] m.entries@[e].1),
        decreases m.entries@.len() - i,
    {
        let ghost prev = roots@;
        let v = m.entries[i].1.copy();
        roots.push(v);
        proof {
            assert forall|x: Value| prev.contains(x) implies roots@.contains(x) by {
                vstd::seq_lib::lemma_seq_contains_after_push(prev, v, x);
            }
            vstd::seq_lib::lemma_seq_contains_after_push(prev, v, v);
        }
        i = i + 1;
    }
    assert forall|k: Seq<char>| #[trigger] m@.contains_key(k) implies roots@.contains(m@[k]) by {
        m.lemma_key(k);
        let e = choose|e: int| m.has_key_at(k, e);
        m.lemma_entry(e);
    }
    assert forall|j: int| n0 <= j < roots@.len() implies has_value(m@, #[trigger] roots@[j]) by {
        m.lemma_entry(j - n0);
        let k = m.key_at(j - n0);
        assert(roots@[j] == m.entries@[j - n0].1);
        assert(m@.contains_key(k) && m@[k] == roots@[j]);
    }
}


// ---------------------------------------------------------------------------
// Evaluation.
// ---------------------------------------------------------------------------

fn rt_error(message: String, span: Span) -> (e: RuntimeError)
    ensures
        e.message == message,
        e.span == span,
{
    RuntimeError { message, span }
}

fn rt_error_str(message: &str, span: Span) -> (e: RuntimeError)
    ensures
        e.message@ == message@,
        e.span == span,
{
    let mut m = String::new();
    string_append(&mut m, message);
    RuntimeError { message: m, span }
}

/// `prefix` followed by the written form of `v`.
fn with_value(prefix: &str, v: &Value) -> (s: String)
    ensures
        s@ == prefix@ + v.debug(),
{
    let mut s = String::new();
    string_append(&mut s, prefix);
    let d = v.to_debug_string();
    string_append(&mut s, d.as_str());
    s
}

/// Reads `base[index]`.
fn eval_index(env: &Env, base: Value, index: Value, span: Span) -> (r: Result<Value, RuntimeError>)
    requires
        env.wf(),
    ensures
        match r {
            Ok(v) => index_out(env.state(), base, index, span) == ok_value(v),
            Err(e) => index_out(env.state(), base, index, span) == Err::<Exec, (Seq<char>, Span)>((e.message@, e.span)),
        },
{
    match read_index(&env.heap, base, index) {
        Ok(v) => Ok(v),
        Err(m) => Err(rt_error(m, span)),
    }
}

/// Writes `value` into `base[index]`.
fn assign_index(env: &mut Env, base: Value, index: Value, value: Value, span: Span) -> (r: Result<(), RuntimeError>)
    requires
        old(env).wf(),
    ensures
        final(env).wf(),
        final(env).depth() == old(env).depth(),
        final(env).saved_view() == old(env).saved_view(),
        final(env).funcs_view() == old(env).funcs_view(),
        write_ok(old(env).heap_view(), base, index) ==> r is Ok && final(env).state() == (State {
            heap: write_spec(old(env).heap_view(), base, index, value),
            ..old(env).state()
        }),
        !write_ok(old(env).heap_view(), base, index) ==> (r matches Err(e) && final(env).state()
            == old(env).state() && e.message@ == write_err(old(env).heap_view(), old(env).heap_slots(), base, index)
            && e.span == span),
{
    match write_index(&mut env.heap, base, index, value) {
        Ok(()) => Ok(()),
        Err(m) => Err(rt_error(m, span)),
    }
}

/// The outcome that an evaluation result stands for.
pub open spec fn outcome(r: Result<Exec, RuntimeError>) -> Outcome {
    match r {
        Ok(x) => Ok(x),
        Err(e) => Err((e.message@, e.span)),
    }
}

/// The result of a program as plain values.
pub open spec fn program_result(r: Result<Value, RuntimeError>) -> Result<Value, (Seq<char>, Span)> {
    match r {
        Ok(v) => Ok(v),
        Err(e) => Err((e.message@, e.span)),
    }
}

/// The declared functions are those of the program: same names, parameter names and
/// declarations.
pub open spec fn funcs_match(fv: Map<Seq<char>, Function>, fs: Map<Seq<char>, (Seq<Seq<char>>, nat)>) -> bool {
    &&& forall|k: Seq<char>| #[trigger] fv.contains_key(k) <==> fs.contains_key(k)
    &&& forall|k: Seq<char>|
        #[trigger] fv.contains_key(k) ==> fv[k].params@.len() == fs[k].0.len() && fv[k].decl == fs[k].1
            && forall|j: int| 0 <= j < fs[k].0.len() ==> #[trigger] fv[k].params@[j]@ == fs[k].0[j]
}

/// How the evaluation of a list of expressions ended.
enum Listed {
    Values(Vec<Value>),
    Returned(Value, Span),
}

spec fn listed(r: Result<Listed, RuntimeError>) -> ListOut {
    match r {
        Ok(Listed::Values(vs)) => ListOut::Done(vs@),
        Ok(Listed::Returned(v, sp)) => ListOut::Stopped(Ok(Exec::Return(v, sp))),
        Err(e) => ListOut::Stopped(Err((e.message@, e.span))),
    }
}

// ---------------------------------------------------------------------------
// Lists of evaluations, one step at a time.
// ---------------------------------------------------------------------------

proof fn lemma_list_step(p: Program, f: nat, s: State, es: Seq<Expr>, i: int, vs: Seq<Value>, m: State, o: Outcome, t: State)
    requires
        0 <= i < es.len(),
        evals_list(p, f, s, es.take(i), ListOut::Done(vs), m),
        evals(p, f, m, es[i], o, t),
    ensures
        evals_list(p, f, s, es.take(i + 1), if stops(o) {
            ListOut::Stopped(o)
        } else {
            ListOut::Done(vs.push(val(o)))
        }, t),
{
    assert(es.take(i + 1).drop_last() =~= es.take(i));
    assert(es.take(i + 1).last() == es[i]);
    assert(through(m, ListOut::Done(vs)));
    assert(through(t, o));
}

proof fn lemma_list_stop(p: Program, f: nat, s: State, es: Seq<Expr>, k: int, o: Outcome, t: State)
    requires
        0 < k <= es.len(),
        evals_list(p, f, s, es.take(k), ListOut::Stopped(o), t),
    ensures
        evals_list(p, f, s, es, ListOut::Stopped(o), t),
    decreases es.len() - k,
{
    if k == es.len() {
        assert(es.take(k) =~= es);
    } else {
        assert(es.take(k + 1).drop_last() =~= es.take(k));
        assert(through(t, ListOut::Stopped(o)));
        assert(evals_list(p, f, s, es.take(k + 1), ListOut::Stopped(o), t));
        lemma_list_stop(p, f, s, es, k + 1, o, t);
    }
}

proof fn lemma_props_step(
    p: Program,
    f: nat,
    s: State,
    ps: Seq<(String, Expr)>,
    i: int,
    vs: Seq<Value>,
    m: State,
    o: Outcome,
    t: State,
)
    requires
        0 <= i < ps.len(),
        evals_props(p, f, s, ps.take(i), ListOut::Done(vs), m),
        evals(p, f, m, ps[i].1, o, t),
    ensures
        evals_props(p, f, s, ps.take(i + 1), if stops(o) {
            ListOut::Stopped(o)
        } else {
            ListOut::Done(vs.push(val(o)))
        }, t),
{
    assert(ps.take(i + 1).drop_last() =~= ps.take(i));
    assert(ps.take(i + 1).last() == ps[i]);
    assert(through(m, ListOut::Done(vs)));
    assert(through(t, o));
}

proof fn lemma_props_stop(p: Program, f: nat, s: State, ps: Seq<(String, Expr)>, k: int, o: Outcome, t: State)
    requires
        0 < k <= ps.len(),
        evals_props(p, f, s, ps.take(k), ListOut::Stopped(o), t),
    ensures
        evals_props(p, f, s, ps, ListOut::Stopped(o), t),
    decreases ps.len() - k,
{
    if k == ps.len() {
        assert(ps.take(k) =~= ps);
    } else {
        assert(ps.take(k + 1).drop_last() =~= ps.take(k));
        assert(through(t, ListOut::Stopped(o)));
        assert(evals_props(p, f, s, ps.take(k + 1), ListOut::Stopped(o), t));
        lemma_props_stop(p, f, s, ps, k + 1, o, t);
    }
}

proof fn lemma_stmts_step(p: Program, f: nat, s: State, sts: Seq<Stmt>, i: int, m: State, o: Outcome, t: State)
    requires
        0 <= i < sts.len(),
        evals_stmts(p, f, s, sts.take(i), ok_value(Value::Unit), m),
        runs_stmt(p, f, m, sts[i], o, t),
    ensures
        evals_stmts(p, f, s, sts.take(i + 1), o, t),
{
    assert(sts.take(i + 1).drop_last() =~= sts.take(i));
    assert(sts.take(i + 1).last() == sts[i]);
    assert(through(m, ok_value(Value::Unit)));
}

proof fn lemma_stmts_stop(p: Program, f: nat, s: State, sts: Seq<Stmt>, k: int, o: Outcome, t: State)
    requires
        0 < k <= sts.len(),
        stops(o),
        evals_stmts(p, f, s, sts.take(k), o, t),
    ensures
        evals_stmts(p, f, s, sts, o, t),
    decreases sts.len() - k,
{
    if k == sts.len() {
        assert(sts.take(k) =~= sts);
    } else {
        assert(sts.take(k + 1).drop_last() =~= sts.take(k));
        assert(through(t, o));
        assert(evals_stmts(p, f, s, sts.take(k + 1), o, t));
        lemma_stmts_stop(p, f, s, sts, k + 1, o, t);
    }
}

proof fn lemma_object_map_step(ps: Seq<(String, Expr)>, i: int, vs: Seq<Value>, v: Value)
    requires
        0 <= i < ps.len(),
        vs.len() == i,
    ensures
        object_map(ps.take(i + 1), vs.push(v)) == object_map(ps.take(i), vs).insert(ps[i].0@, v),
{
    assert(ps.take(i + 1).drop_last() =~= ps.take(i));
    assert(vs.push(v).drop_last() =~= vs);
}

pub(crate) proof fn lemma_bind_step(names: Seq<Seq<char>>, vals: Seq<Value>, k: int)
    requires
        0 <= k < names.len(),
        k < vals.len(),
    ensures
        bind(names.take(k + 1), vals.take(k + 1)) == bind(names.take(k), vals.take(k)).insert(names[k], vals[k]),
{
    assert(names.take(k + 1).drop_last() =~= names.take(k));
    assert(vals.take(k + 1).drop_last() =~= vals.take(k));
}

// ---------------------------------------------------------------------------
// The evaluator.
// ---------------------------------------------------------------------------

/// Runs a program: functions are registered first, so that they can be called before their
/// declaration; then the statements run in order, and the value of the program is the value
/// of its tail expression, or `Unit`. Each nested call takes one unit of
/// `CALL_FUEL`.
pub fn eval_program(program: &Program) -> (r: Result<Value, RuntimeError>)
    ensures
        runs(*program, CALL_FUEL as nat, program_result(r)),
{
    let mut env = Env::new();
    let ghost p = *program;
    let ghost sts = program.stmts@;
    proof {
        assert(env.state().saved =~= Seq::<Seq<Map<Seq<char>, Value>>>::empty());
        assert(env.state() == initial_state());
        assert(sts.take(0) =~= Seq::<Stmt>::empty());
    }
    let mut i: usize = 0;
    while i < program.stmts.len()
        invariant
            env.wf(),
            sts == program.stmts@,
            i <= sts.len(),
            env.state() == initial_state(),
            funcs_match(env.funcs_view(), decl_fns(sts.take(i as int))),
        decreases sts.len() - i,
    {
        proof {
            assert(sts.take(i + 1).drop_last() =~= sts.take(i as int));
        }
        match &program.stmts[i] {
            Stmt::Fn { name, params, .. } => {
                let mut names: Vec<String> = Vec::new();
                let mut j: usize = 0;
                while j < params.len()
                    invariant
                        j <= params@.len(),
                        names@.len() == j,
                        forall|q: int| 0 <= q < j ==> (#[trigger] names@[q])@ == params@[q].name@,
                    decreases params@.len() - j,
                {
                    names.push(params[j].name.clone());
                    j = j + 1;
                }
                let ghost fs0 = decl_fns(sts.take(i as int));
                let ghost fv0 = env.funcs_view();
                let ghost entry = (params@.map_values(|q: Param| q.name@), i as nat);
                env.define_fn(name.clone(), Function { params: names, decl: i });
                proof {
                    assert(decl_fns(sts.take(i + 1)) == fs0.insert(name@, entry));
                    let fv = env.funcs_view();
                    let fs = fs0.insert(name@, entry);
                    assert forall|k: Seq<char>| #[trigger] fv.contains_key(k) implies fv[k].params@.len()
                        == fs[k].0.len() && fv[k].decl == fs[k].1 && forall|q: int|
                        0 <= q < fs[k].0.len() ==> #[trigger] fv[k].params@[q]@ == fs[k].0[q] by {
                        if k != name@ {
                            assert(fv0.contains_key(k));
                        }
                    }
                    assert(funcs_match(fv, fs));
                }
            },
            _ => {
                proof {
                    assert(decl_fns(sts.take(i + 1)) == decl_fns(sts.take(i as int)));
                }
            },
        }
        i = i + 1;
    }
    proof {
        assert(sts.take(sts.len() as int) =~= sts);
    }
    let ghost s0 = env.state();
    let mut i: usize = 0;
    while i < program.stmts.len()
        invariant
            env.wf(),
            sts == program.stmts@,
            p == *program,
            funcs_match(env.funcs_view(), fns(p)),
            i <= sts.len(),
            s0 == initial_state(),
            evals_stmts(p, CALL_FUEL as nat, s0, sts.take(i as int), ok_value(Value::Unit), env.state()),
        decreases sts.len() - i,
    {
        let ghost m = env.state();
        let r1 = eval_stmt(program, &program.stmts[i], &mut env, CALL_FUEL);
        proof {
            lemma_stmts_step(p, CALL_FUEL as nat, s0, sts, i as int, m, outcome(r1), env.state());
        }
        match r1 {
            Ok(Exec::Value(_)) => {},
            Ok(Exec::Return(_, span)) => {
                proof {
                    lemma_stmts_stop(p, CALL_FUEL as nat, s0, sts, i + 1, outcome(r1), env.state());
                    assert(through(env.state(), outcome(r1)));
                }
                return Err(rt_error_str("return is only allowed inside functions", span));
            },
            Err(e) => {
                proof {
                    lemma_stmts_stop(p, CALL_FUEL as nat, s0, sts, i + 1, outcome(r1), env.state());
                    assert(through(env.state(), outcome(r1)));
                }
                return Err(e);
            },
        }
        i = i + 1;
    }
    proof {
        assert(sts.take(sts.len() as int) =~= sts);
        assert(through(env.state(), ok_value(Value::Unit)));
    }
    match &program.tail {
        Some(expr) => {
            let r2 = eval_expr(program, expr, &mut env, CALL_FUEL);
            proof {
                assert(through(env.state(), outcome(r2)));
            }
            match r2 {
                Ok(Exec::Value(v)) => Ok(v),
                Ok(Exec::Return(_, span)) => Err(rt_error_str("return is only allowed inside functions", span)),
                Err(e) => Err(e),
            }
        },
        None => Ok(Value::Unit),
    }
}

fn eval_stmt(prog: &Program, stmt: &Stmt, env: &mut Env, fuel: usize) -> (r: Result<Exec, RuntimeError>)
    requires
        old(env).wf(),
        funcs_match(old(env).funcs_view(), fns(*prog)),
    ensures
        final(env).wf(),
        final(env).depth() == old(env).depth(),
        final(env).saved_view() == old(env).saved_view(),
        final(env).funcs_view() == old(env).funcs_view(),
        runs_stmt(*prog, fuel as nat, old(env).state(), *stmt, outcome(r), final(env).state()),
        r matches Ok(Exec::Value(v)) ==> v == Value::Unit,
    decreases fuel, stmt, 0nat,
{
    match stmt {
        Stmt::Let { name, expr, .. } => {
            let r1 = eval_expr(prog, expr, env, fuel);
            proof {
                assert(through(env.state(), outcome(r1)));
            }
            let value = match r1 {
                Ok(Exec::Value(v)) => v,
                Ok(Exec::Return(v, sp)) => {
                    return Ok(Exec::Return(v, sp));
                },
                Err(e) => {
                    return Err(e);
                },
            };
            env.define_var(name.clone(), value);
            Ok(Exec::Value(Value::Unit))
        },
        Stmt::Assign { target, expr, span } => {
            match target {
                Expr::Ident(name, _) => {
                    let r1 = eval_expr(prog, expr, env, fuel);
                    proof {
                        assert(through(env.state(), outcome(r1)));
                    }
                    let value = match r1 {
                        Ok(Exec::Value(v)) => v,
                        Ok(Exec::Return(v, sp)) => {
                            return Ok(Exec::Return(v, sp));
                        },
                        Err(e) => {
                            return Err(e);
                        },
                    };
                    match env.assign_var(name.as_str(), value) {
                        Ok(()) => Ok(Exec::Value(Value::Unit)),
                        Err(()) => {
                            let mut m = String::new();
                            string_append(&mut m, "undefined variable: ");
                            string_append(&mut m, name.as_str());
                            Err(rt_error(m, *span))
                        },
                    }
                },
                Expr::Index { target: base, index, .. } => {
                    let r1 = eval_expr(prog, base, env, fuel);
                    proof {
                        assert(through(env.state(), outcome(r1)));
                    }
                    let base_v = match r1 {
                        Ok(Exec::Value(v)) => v,
                        Ok(Exec::Return(v, sp)) => {
                            return Ok(Exec::Return(v, sp));
                        },
                        Err(e) => {
                            return Err(e);
                        },
                    };
                    let r2 = eval_expr(prog, index, env, fuel);
                    proof {
                        assert(through(env.state(), outcome(r2)));
                    }
                    let index_v = match r2 {
                        Ok(Exec::Value(v)) => v,
                        Ok(Exec::Return(v, sp)) => {
                            return Ok(Exec::Return(v, sp));
                        },
                        Err(e) => {
                            return Err(e);
                        },
                    };
                    let r3 = eval_expr(prog, expr, env, fuel);
                    proof {
                        assert(through(env.state(), outcome(r3)));
                    }
                    let value = match r3 {
                        Ok(Exec::Value(v)) => v,
                        Ok(Exec::Return(v, sp)) => {
                            return Ok(Exec::Return(v, sp));
                        },
                        Err(e) => {
                            return Err(e);
                        },
                    };
                    assign_index(env, base_v, index_v, value, *span)?;
                    Ok(Exec::Value(Value::Unit))
                },
                _ => Err(rt_error_str("invalid assignment target", *span)),
            }
        },
        Stmt::Return { expr, span } => {
            match expr {
                Some(e) => {
                    let r1 = eval_expr(prog, e, env, fuel);
                    proof {
                        assert(through(env.state(), outcome(r1)));
                    }
                    match r1 {
                        Ok(Exec::Value(v)) => Ok(Exec::Return(v, *span)),
                        Ok(Exec::Return(v, sp)) => Ok(Exec::Return(v, sp)),
                        Err(e) => Err(e),
                    }
                },
                None => Ok(Exec::Return(Value::Unit, *span)),
            }
        },
        Stmt::Fn { .. } => Ok(Exec::Value(Value::Unit)),
        Stmt::Expr { expr, .. } => {
            let r1 = eval_expr(prog, expr, env, fuel);
            proof {
                assert(through(env.state(), outcome(r1)));
            }
            match r1 {
                Ok(Exec::Value(_)) => Ok(Exec::Value(Value::Unit)),
                Ok(Exec::Return(v, sp)) => Ok(Exec::Return(v, sp)),
                Err(e) => Err(e),
            }
        },
    }
}

/// Evaluates a list of expressions from left to right.
fn eval_list(prog: &Program, es: &Vec<Expr>, env: &mut Env, fuel: usize) -> (r: Result<Listed, RuntimeError>)
    requires
        old(env).wf(),
        funcs_match(old(env).funcs_view(), fns(*prog)),
    ensures
        final(env).wf(),
        final(env).depth() == old(env).depth(),
        final(env).saved_view() == old(env).saved_view(),
        final(env).funcs_view() == old(env).funcs_view(),
        evals_list(*prog, fuel as nat, old(env).state(), es@, listed(r), final(env).state()),
        r matches Ok(Listed::Values(vs)) ==> vs@.len() == es@.len(),
    decreases fuel, es, 0nat,
{
    let ghost p = *prog;
    let ghost s0 = env.state();
    let mut values: Vec<Value> = Vec::new();
    let mut i: usize = 0;
    proof {
        assert(es@.take(0) =~= Seq::<Expr>::empty());
        assert forall|j: int| 0 <= j < es@.len() implies decreases_to!(*es => #[trigger] es@[j]) by {
            assert(decreases_to!(es@ => es@[j]));
        }
    }
    while i < es.len()
        invariant
            forall|j: int| 0 <= j < es@.len() ==> decreases_to!(*es => #[trigger] es@[j]),
            p == *prog,
            env.wf(),
            funcs_match(env.funcs_view(), fns(p)),
            env.depth() == old(env).depth(),
            env.saved_view() == old(env).saved_view(),
            env.funcs_view() == old(env).funcs_view(),
            i <= es@.len(),
            values@.len() == i,
            s0 == old(env).state(),
            evals_list(p, fuel as nat, s0, es@.take(i as int), ListOut::Done(values@), env.state()),
        decreases es@.len() - i,
    {
        proof {
            assert(decreases_to!(*es => es@[i as int]));
        }
        let ghost m = env.state();
        let r1 = eval_expr(prog, &es[i], env, fuel);
        proof {
            lemma_list_step(p, fuel as nat, s0, es@, i as int, values@, m, outcome(r1), env.state());
        }
        match r1 {
            Ok(Exec::Value(v)) => {
                values.push(v);
            },
            Ok(Exec::Return(v, sp)) => {
                proof {
                    lemma_list_stop(p, fuel as nat, s0, es@, i + 1, outcome(r1), env.state());
                }
                return Ok(Listed::Returned(v, sp));
            },
            Err(e) => {
                proof {
                    lemma_list_stop(p, fuel as nat, s0, es@, i + 1, outcome(r1), env.state());
                }
                return Err(e);
            },
        }
        i = i + 1;
    }
    proof {
        assert(es@.take(i as int) =~= es@);
    }
    Ok(Listed::Values(values))
}

/// Evaluates a block in a new scope.
fn eval_block(prog: &Program, block: &Expr, env: &mut Env, fuel: usize) -> (r: Result<Exec, RuntimeError>)
    requires
        old(env).wf(),
        funcs_match(old(env).funcs_view(), fns(*prog)),
        block is Block,
    ensures
        final(env).wf(),
        final(env).depth() == old(env).depth(),
        final(env).saved_view() == old(env).saved_view(),
        final(env).funcs_view() == old(env).funcs_view(),
        evals(*prog, fuel as nat, old(env).state(), *block, outcome(r), final(env).state()),
    decreases fuel, block, 1nat,
{
    let (stmts, tail) = match block {
        Expr::Block { stmts, tail, .. } => (stmts, tail),
        _ => {
            return Ok(Exec::Value(Value::Unit));
        },
    };
    let ghost p = *prog;
    env.push_scope();
    let ghost s1 = env.state();
    let mut i: usize = 0;
    proof {
        assert(s1 == push_scope(old(env).state()));
        assert(stmts@.take(0) =~= Seq::<Stmt>::empty());
        assert forall|j: int| 0 <= j < stmts@.len() implies decreases_to!(*block => #[trigger] stmts@[j]) by {
            assert(decreases_to!(stmts@ => stmts@[j]));
        }
    }
    while i < stmts.len()
        invariant
            forall|j: int| 0 <= j < stmts@.len() ==> decreases_to!(*block => #[trigger] stmts@[j]),
            p == *prog,
            env.wf(),
            funcs_match(env.funcs_view(), fns(p)),
            env.depth() == old(env).depth() + 1,
            env.saved_view() == old(env).saved_view(),
            env.funcs_view() == old(env).funcs_view(),
            i <= stmts@.len(),
            s1 == push_scope(old(env).state()),
            block is Block,
            stmts@ == block->Block_stmts@,
            evals_stmts(p, fuel as nat, s1, stmts@.take(i as int), ok_value(Value::Unit), env.state()),
        decreases stmts@.len() - i,
    {
        proof {
            assert(decreases_to!(*block => stmts@[i as int]));
        }
        let ghost m = env.state();
        let r1 = eval_stmt(prog, &stmts[i], env, fuel);
        proof {
            lemma_stmts_step(p, fuel as nat, s1, stmts@, i as int, m, outcome(r1), env.state());
        }
        match r1 {
            Ok(Exec::Value(_)) => {},
            Ok(Exec::Return(v, sp)) => {
                proof {
                    lemma_stmts_stop(p, fuel as nat, s1, stmts@, i + 1, outcome(r1), env.state());
                    assert(through(env.state(), outcome(r1)));
                }
                env.pop_scope();
                return Ok(Exec::Return(v, sp));
            },
            Err(e) => {
                proof {
                    lemma_stmts_stop(p, fuel as nat, s1, stmts@, i + 1, outcome(r1), env.state());
                    assert(through(env.state(), outcome(r1)));
                }
                env.pop_scope();
                return Err(e);
            },
        }
        i = i + 1;
    }
    proof {
        assert(stmts@.take(i as int) =~= stmts@);
        assert(through(env.state(), ok_value(Value::Unit)));
    }
    let result = match tail {
        Some(e) => eval_expr(prog, e, env, fuel),
        None => Ok(Exec::Value(Value::Unit)),
    };
    proof {
        assert(through(env.state(), outcome(result)));
    }
    env.pop_scope();
    result
}

/// Evaluates a call: the callee, then the rest of the call.
fn eval_call(prog: &Program, call: &Expr, env: &mut Env, fuel: usize) -> (r: Result<Exec, RuntimeError>)
    requires
        old(env).wf(),
        funcs_match(old(env).funcs_view(), fns(*prog)),
        call is Call,
    ensures
        final(env).wf(),
        final(env).depth() == old(env).depth(),
        final(env).saved_view() == old(env).saved_view(),
        final(env).funcs_view() == old(env).funcs_view(),
        evals(*prog, fuel as nat, old(env).state(), *call, outcome(r), final(env).state()),
    decreases fuel, call, 1nat,
{
    let (callee, args, span) = match call {
        Expr::Call { callee, args, span } => (callee, args, *span),
        _ => {
            return Ok(Exec::Value(Value::Unit));
        },
    };
    let r1 = eval_expr(prog, callee, env, fuel);
    proof {
        assert(through(env.state(), outcome(r1)));
    }
    let callee_v = match r1 {
        Ok(Exec::Value(v)) => v,
        Ok(Exec::Return(v, sp)) => {
            return Ok(Exec::Return(v, sp));
        },
        Err(e) => {
            return Err(e);
        },
    };
    call_value(prog, callee_v, args, span, env, fuel)
}

/// Calls `callee` on the argument expressions `args`: the callee is checked, then the
/// arguments are evaluated from left to right, then the body of the function runs in a new
/// frame that sees only the globals and the parameters.
fn call_value(
    prog: &Program,
    callee: Value,
    args: &Vec<Expr>,
    span: Span,
    env: &mut Env,
    fuel: usize,
) -> (r: Result<Exec, RuntimeError>)
    requires
        old(env).wf(),
        funcs_match(old(env).funcs_view(), fns(*prog)),
    ensures
        final(env).wf(),
        final(env).depth() == old(env).depth(),
        final(env).saved_view() == old(env).saved_view(),
        final(env).funcs_view() == old(env).funcs_view(),
        calls(*prog, fuel as nat, old(env).state(), callee, args@, span, outcome(r), final(env).state()),
    decreases fuel, args, 3nat,
{
    let ghost p = *prog;
    let ghost s0 = env.state();
    let name = match callee {
        Value::Function(name) => name,
        _ => {
            return Err(rt_error_str("cannot call non-function value", span));
        },
    };
    if text_is(&name, "gc") {
        if args.len() != 0 {
            return Err(rt_error_str("gc() takes no arguments", span));
        }
        env.collect_garbage();
        return Ok(Exec::Value(Value::Unit));
    }
    let func = match env.get_fn(name.as_str()) {
        Some(f) => f.copy(),
        None => {
            let mut m = String::new();
            string_append(&mut m, "undefined function: ");
            string_append(&mut m, name.as_str());
            return Err(rt_error(m, span));
        },
    };
    let ghost names = fns(p)[name@].0;
    if func.params.len() != args.len() {
        let mut m = String::new();
        string_append(&mut m, "wrong number of arguments for ");
        string_append(&mut m, name.as_str());
        string_append(&mut m, ": expected ");
        push_decimal(&mut m, func.params.len() as u64);
        string_append(&mut m, ", got ");
        push_decimal(&mut m, args.len() as u64);
        return Err(rt_error(m, span));
    }
    let r1 = eval_list(prog, args, env, fuel);
    proof {
        assert(through(env.state(), listed(r1)));
    }
    let values = match r1 {
        Ok(Listed::Values(vs)) => vs,
        Ok(Listed::Returned(v, sp)) => {
            return Ok(Exec::Return(v, sp));
        },
        Err(e) => {
            return Err(e);
        },
    };
    let ghost m = env.state();
    if fuel == 0 {
        return Err(rt_error_str("call depth limit exceeded", span));
    }
    if func.decl >= prog.stmts.len() {
        return Err(rt_error_str("internal error: function declaration not found", span));
    }
    let body = match &prog.stmts[func.decl] {
        Stmt::Fn { body, .. } => body,
        _ => {
            return Err(rt_error_str("internal error: function declaration not found", span));
        },
    };
    let ghost before = *env;
    let saved = env.take_scopes();
    let ghost saved_g = saved;
    env.saved.push(saved);
    proof {
        assert forall|a: int, b: int|
            0 <= a < env.saved@.len() && 0 <= b < env.saved@[a]@.len() implies (#[trigger] env.saved@[a]@[b]).wf() by {
            if a < env.saved@.len() - 1 {
                assert(env.saved@[a] == before.saved@[a]);
            }
        }
        assert(env.state().saved =~= m.saved.push(m.vars.1));
    }
    env.push_scope();
    let ghost frames = env.saved@;
    let ghost g = m.vars.0;
    let mut k: usize = 0;
    proof {
        assert(names.take(0) =~= Seq::<Seq<char>>::empty());
        assert(values@.take(0) =~= Seq::<Value>::empty());
        assert(env.state().vars =~= (g, seq![bind(names.take(0), values@.take(0))]));
    }
    while k < values.len()
        invariant
            env.wf(),
            env.depth() == 1,
            env.saved@ == frames,
            env.funcs_view() == old(env).funcs_view(),
            k <= values@.len(),
            values@.len() == func.params@.len(),
            names.len() == func.params@.len(),
            forall|q: int| 0 <= q < names.len() ==> #[trigger] func.params@[q]@ == names[q],
            env.state() == (State {
                vars: (g, seq![bind(names.take(k as int), values@.take(k as int))]),
                saved: m.saved.push(m.vars.1),
                heap: m.heap,
                slots: m.slots,
                free: m.free,
            }),
        decreases values@.len() - k,
    {
        env.define_var(func.params[k].clone(), values[k].copy());
        proof {
            lemma_bind_step(names, values@, k as int);
            assert(env.state().vars =~= (g, seq![bind(names.take(k + 1), values@.take(k + 1))]));
        }
        k = k + 1;
    }
    proof {
        assert(names.take(k as int) =~= names);
        assert(values@.take(k as int) =~= values@);
        assert(env.state() == enter(m, names, values@));
    }
    let result = eval_expr(prog, body, env, fuel - 1);
    let ghost b = env.state();
    let restored = env.saved.pop().unwrap();
    proof {
        assert(env.saved@ =~= before.saved@);
        assert(restored == saved_g);
    }
    env.restore_scopes(restored);
    proof {
        assert(env.state() == leave(m, b));
        assert(saved_g@.len() == value_maps(saved_g@).len());
        assert(through(b, outcome(result)));
    }
    match result {
        Ok(Exec::Value(v)) => Ok(Exec::Value(v)),
        Ok(Exec::Return(v, _)) => Ok(Exec::Value(v)),
        Err(e) => Err(e),
    }
}

/// The string `s` reads `lit`.
fn text_is(s: &String, lit: &str) -> (r: bool)
    ensures
        r == (s@ == lit@),
{
    let t = lit.to_owned();
    *s == t
}

/// Reads a name: a variable, else a function, else an error.
fn eval_ident(prog: &Program, name: &String, span: Span, env: &Env) -> (r: Result<Exec, RuntimeError>)
    requires
        env.wf(),
        funcs_match(env.funcs_view(), fns(*prog)),
    ensures
        outcome(r) == ident_out(*prog, env.state(), *name, span),
{
    match env.get_var(name.as_str()) {
        Some(v) => {
            return Ok(Exec::Value(v.copy()));
        },
        None => {},
    }
    if env.get_fn(name.as_str()).is_some() || text_is(name, "gc") {
        return Ok(Exec::Value(Value::Function(name.clone())));
    }
    let mut m = String::new();
    string_append(&mut m, "undefined variable: ");
    string_append(&mut m, name.as_str());
    Err(rt_error(m, span))
}

/// Evaluates an array literal.
fn eval_array(prog: &Program, expr: &Expr, env: &mut Env, fuel: usize) -> (r: Result<Exec, RuntimeError>)
    requires
        old(env).wf(),
        funcs_match(old(env).funcs_view(), fns(*prog)),
        expr is Array,
    ensures
        final(env).wf(),
        final(env).depth() == old(env).depth(),
        final(env).saved_view() == old(env).saved_view(),
        final(env).funcs_view() == old(env).funcs_view(),
        evals(*prog, fuel as nat, old(env).state(), *expr, outcome(r), final(env).state()),
    decreases fuel, expr, 1nat,
{
    let elements = match expr {
        Expr::Array { elements, .. } => elements,
        _ => {
            return Ok(Exec::Value(Value::Unit));
        },
    };
    let r1 = eval_list(prog, elements, env, fuel);
    proof {
        assert(through(env.state(), listed(r1)));
    }
    let values = match r1 {
        Ok(Listed::Values(vs)) => vs,
        Ok(Listed::Returned(v, sp)) => {
            return Ok(Exec::Return(v, sp));
        },
        Err(e) => {
            return Err(e);
        },
    };
    let ghost m = env.state();
    let ghost obj = ObjectView::Array(values@);
    proof {
        env.heap.lemma_dom_bounded();
    }
    let handle = env.heap.alloc_array(values);
    proof {
        assert(m.heap.insert(handle.0, obj) == env.state().heap);
        assert(handle.0 == next_free(m));
    }
    Ok(Exec::Value(Value::Array(handle)))
}

/// Evaluates an object literal.
fn eval_object(prog: &Program, expr: &Expr, env: &mut Env, fuel: usize) -> (r: Result<Exec, RuntimeError>)
    requires
        old(env).wf(),
        funcs_match(old(env).funcs_view(), fns(*prog)),
        expr is Object,
    ensures
        final(env).wf(),
        final(env).depth() == old(env).depth(),
        final(env).saved_view() == old(env).saved_view(),
        final(env).funcs_view() == old(env).funcs_view(),
        evals(*prog, fuel as nat, old(env).state(), *expr, outcome(r), final(env).state()),
    decreases fuel, expr, 1nat,
{
    let props = match expr {
        Expr::Object { props, .. } => props,
        _ => {
            return Ok(Exec::Value(Value::Unit));
        },
    };
    let ghost p = *prog;
    let ghost s0 = env.state();
    let ghost mut vals: Seq<Value> = Seq::empty();
    let mut map: NameMap<Value> = NameMap::new();
    let mut i: usize = 0;
    proof {
        assert(props@.take(0) =~= Seq::<(String, Expr)>::empty());
        assert(map@ =~= object_map(props@.take(0), vals));
        assert forall|j: int| 0 <= j < props@.len() implies decreases_to!(*expr => #[trigger] props@[j].1) by {
            assert(decreases_to!(props@ => props@[j]));
            assert(decreases_to!(props@[j] => props@[j].1));
        }
    }
    while i < props.len()
        invariant
            forall|j: int| 0 <= j < props@.len() ==> decreases_to!(*expr => #[trigger] props@[j].1),
            p == *prog,
            env.wf(),
            funcs_match(env.funcs_view(), fns(p)),
            env.depth() == old(env).depth(),
            env.saved_view() == old(env).saved_view(),
            env.funcs_view() == old(env).funcs_view(),
            map.wf(),
            i <= props@.len(),
            vals.len() == i,
            s0 == old(env).state(),
            expr is Object,
            props@ == expr->Object_props@,
            evals_props(p, fuel as nat, s0, props@.take(i as int), ListOut::Done(vals), env.state()),
            map@ == object_map(props@.take(i as int), vals),
        decreases props@.len() - i,
    {
        proof {
            assert(decreases_to!(*expr => props@[i as int].1));
        }
        let ghost m = env.state();
        let r1 = eval_expr(prog, &props[i].1, env, fuel);
        proof {
            lemma_props_step(p, fuel as nat, s0, props@, i as int, vals, m, outcome(r1), env.state());
        }
        let v = match r1 {
            Ok(Exec::Value(v)) => v,
            Ok(Exec::Return(v, sp)) => {
                proof {
                    lemma_props_stop(p, fuel as nat, s0, props@, i + 1, outcome(r1), env.state());
                    assert(through(env.state(), ListOut::Stopped(outcome(r1))));
                }
                return Ok(Exec::Return(v, sp));
            },
            Err(e) => {
                proof {
                    lemma_props_stop(p, fuel as nat, s0, props@, i + 1, outcome(r1), env.state());
                    assert(through(env.state(), ListOut::Stopped(outcome(r1))));
                }
                return Err(e);
            },
        };
        proof {
            lemma_object_map_step(props@, i as int, vals, v);
        }
        map.insert(props[i].0.clone(), v);
        proof {
            vals = vals.push(v);
        }
        i = i + 1;
    }
    proof {
        assert(props@.take(i as int) =~= props@);
        assert(through(env.state(), ListOut::Done(vals)));
    }
    let ghost m = env.state();
    let ghost obj = ObjectView::Object(map@);
    proof {
        env.heap.lemma_dom_bounded();
    }
    let handle = env.heap.alloc_object(map);
    proof {
        assert(m.heap.insert(handle.0, obj) == env.state().heap);
        assert(handle.0 == next_free(m));
    }
    Ok(Exec::Value(Value::Object(handle)))
}

/// Evaluates a conditional.
fn eval_if(prog: &Program, expr: &Expr, env: &mut Env, fuel: usize) -> (r: Result<Exec, RuntimeError>)
    requires
        old(env).wf(),
        funcs_match(old(env).funcs_view(), fns(*prog)),
        expr is If,
    ensures
        final(env).wf(),
        final(env).depth() == old(env).depth(),
        final(env).saved_view() == old(env).saved_view(),
        final(env).funcs_view() == old(env).funcs_view(),
        evals(*prog, fuel as nat, old(env).state(), *expr, outcome(r), final(env).state()),
    decreases fuel, expr, 1nat,
{
    let (cond, then_branch, else_branch, span) = match expr {
        Expr::If { cond, then_branch, else_branch, span } => (cond, then_branch, else_branch, *span),
        _ => {
            return Ok(Exec::Value(Value::Unit));
        },
    };
    let r1 = eval_expr(prog, cond, env, fuel);
    proof {
        assert(through(env.state(), outcome(r1)));
    }
    let v = match r1 {
        Ok(Exec::Value(v)) => v,
        Ok(Exec::Return(v, sp)) => {
            return Ok(Exec::Return(v, sp));
        },
        Err(e) => {
            return Err(e);
        },
    };
    let b = match v {
        Value::Bool(b) => b,
        other => {
            return Err(rt_error(with_value("if condition must be bool, got ", &other), span));
        },
    };
    if b {
        eval_expr(prog, then_branch, env, fuel)
    } else {
        eval_expr(prog, else_branch, env, fuel)
    }
}

/// Evaluates a read through an index.
fn eval_index_expr(prog: &Program, expr: &Expr, env: &mut Env, fuel: usize) -> (r: Result<Exec, RuntimeError>)
    requires
        old(env).wf(),
        funcs_match(old(env).funcs_view(), fns(*prog)),
        expr is Index,
    ensures
        final(env).wf(),
        final(env).depth() == old(env).depth(),
        final(env).saved_view() == old(env).saved_view(),
        final(env).funcs_view() == old(env).funcs_view(),
        evals(*prog, fuel as nat, old(env).state(), *expr, outcome(r), final(env).state()),
    decreases fuel, expr, 1nat,
{
    let (target, index, span) = match expr {
        Expr::Index { target, index, span } => (target, index, *span),
        _ => {
            return Ok(Exec::Value(Value::Unit));
        },
    };
    let r1 = eval_expr(prog, target, env, fuel);
    proof {
        assert(through(env.state(), outcome(r1)));
    }
    let base_v = match r1 {
        Ok(Exec::Value(v)) => v,
        Ok(Exec::Return(v, sp)) => {
            return Ok(Exec::Return(v, sp));
        },
        Err(e) => {
            return Err(e);
        },
    };
    let r2 = eval_expr(prog, index, env, fuel);
    proof {
        assert(through(env.state(), outcome(r2)));
    }
    let index_v = match r2 {
        Ok(Exec::Value(v)) => v,
        Ok(Exec::Return(v, sp)) => {
            return Ok(Exec::Return(v, sp));
        },
        Err(e) => {
            return Err(e);
        },
    };
    let v = eval_index(env, base_v, index_v, span)?;
    Ok(Exec::Value(v))
}

/// Evaluates a unary operation.
fn eval_unary(prog: &Program, expr: &Expr, env: &mut Env, fuel: usize) -> (r: Result<Exec, RuntimeError>)
    requires
        old(env).wf(),
        funcs_match(old(env).funcs_view(), fns(*prog)),
        expr is Unary,
    ensures
        final(env).wf(),
        final(env).depth() == old(env).depth(),
        final(env).saved_view() == old(env).saved_view(),
        final(env).funcs_view() == old(env).funcs_view(),
        evals(*prog, fuel as nat, old(env).state(), *expr, outcome(r), final(env).state()),
    decreases fuel, expr, 1nat,
{
    let (op, inner, span) = match expr {
        Expr::Unary { op, expr, span } => (*op, expr, *span),
        _ => {
            return Ok(Exec::Value(Value::Unit));
        },
    };
    let r1 = eval_expr(prog, inner, env, fuel);
    proof {
        assert(through(env.state(), outcome(r1)));
    }
    let v = match r1 {
        Ok(Exec::Value(v)) => v,
        Ok(Exec::Return(v, sp)) => {
            return Ok(Exec::Return(v, sp));
        },
        Err(e) => {
            return Err(e);
        },
    };
    match apply_unary(op, v) {
        Ok(x) => Ok(Exec::Value(x)),
        Err(m) => Err(rt_error(m, span)),
    }
}

/// Evaluates a binary operation; `&&` and `||` evaluate their right side only when the left
/// side does not decide.
fn eval_binary(prog: &Program, expr: &Expr, env: &mut Env, fuel: usize) -> (r: Result<Exec, RuntimeError>)
    requires
        old(env).wf(),
        funcs_match(old(env).funcs_view(), fns(*prog)),
        expr is Binary,
    ensures
        final(env).wf(),
        final(env).depth() == old(env).depth(),
        final(env).saved_view() == old(env).saved_view(),
        final(env).funcs_view() == old(env).funcs_view(),
        evals(*prog, fuel as nat, old(env).state(), *expr, outcome(r), final(env).state()),
    decreases fuel, expr, 1nat,
{
    let (lhs, op, rhs, span) = match expr {
        Expr::Binary { lhs, op, rhs, span } => (lhs, *op, rhs, *span),
        _ => {
            return Ok(Exec::Value(Value::Unit));
        },
    };
    let r1 = eval_expr(prog, lhs, env, fuel);
    proof {
        assert(through(env.state(), outcome(r1)));
    }
    let left = match r1 {
        Ok(Exec::Value(v)) => v,
        Ok(Exec::Return(v, sp)) => {
            return Ok(Exec::Return(v, sp));
        },
        Err(e) => {
            return Err(e);
        },
    };
    match op {
        BinaryOp::And => {
            let lb = match left {
                Value::Bool(b) => b,
                other => {
                    return Err(rt_error(with_value("left side of '&&' must be bool, got ", &other), span));
                },
            };
            if !lb {
                return Ok(Exec::Value(Value::Bool(false)));
            }
        },
        BinaryOp::Or => {
            let lb = match left {
                Value::Bool(b) => b,
                other => {
                    return Err(rt_error(with_value("left side of '||' must be bool, got ", &other), span));
                },
            };
            if lb {
                return Ok(Exec::Value(Value::Bool(true)));
            }
        },
        _ => {},
    }
    let r2 = eval_expr(prog, rhs, env, fuel);
    proof {
        assert(through(env.state(), outcome(r2)));
    }
    let right = match r2 {
        Ok(Exec::Value(v)) => v,
        Ok(Exec::Return(v, sp)) => {
            return Ok(Exec::Return(v, sp));
        },
        Err(e) => {
            return Err(e);
        },
    };
    match op {
        BinaryOp::And => match right {
            Value::Bool(b) => Ok(Exec::Value(Value::Bool(b))),
            other => Err(rt_error(with_value("right side of '&&' must be bool, got ", &other), span)),
        },
        BinaryOp::Or => match right {
            Value::Bool(b) => Ok(Exec::Value(Value::Bool(b))),
            other => Err(rt_error(with_value("right side of '||' must be bool, got ", &other), span)),
        },
        _ => match apply_binary(op, left, right) {
            Ok(x) => Ok(Exec::Value(x)),
            Err(m) => Err(rt_error(m, span)),
        },
    }
}

/// Evaluates an expression.
fn eval_expr(prog: &Program, expr: &Expr, env: &mut Env, fuel: usize) -> (r: Result<Exec, RuntimeError>)
    requires
        old(env).wf(),
        funcs_match(old(env).funcs_view(), fns(*prog)),
    ensures
        final(env).wf(),
        final(env).depth() == old(env).depth(),
        final(env).saved_view() == old(env).saved_view(),
        final(env).funcs_view() == old(env).funcs_view(),
        evals(*prog, fuel as nat, old(env).state(), *expr, outcome(r), final(env).state()),
    decreases fuel, expr, 2nat,
{
    match expr {
        Expr::Int(i, _) => Ok(Exec::Value(Value::Int(*i))),
        Expr::Bool(b, _) => Ok(Exec::Value(Value::Bool(*b))),
        Expr::String(s, _) => Ok(Exec::Value(Value::String(s.clone()))),
        Expr::Ident(name, sp) => eval_ident(prog, name, *sp, env),
        Expr::Array { .. } => eval_array(prog, expr, env, fuel),
        Expr::Object { .. } => eval_object(prog, expr, env, fuel),
        Expr::Group { expr: inner, .. } => eval_expr(prog, inner, env, fuel),
        Expr::Block { .. } => eval_block(prog, expr, env, fuel),
        Expr::If { .. } => eval_if(prog, expr, env, fuel),
        Expr::Call { .. } => eval_call(prog, expr, env, fuel),
        Expr::Index { .. } => eval_index_expr(prog, expr, env, fuel),
        Expr::Unary { .. } => eval_unary(prog, expr, env, fuel),
        Expr::Binary { .. } => eval_binary(prog, expr, env, fuel),
    }
}

} // verus!
