use vstd::prelude::*;
use crate::namemap::NameMap;
use crate::span::Span;
use crate::types::{TV, Type, copy_types, tview, tviews, ty_eq, tys_eq};

verus! {

/// The variables that a list of scopes holds, scope by scope.
pub open spec fn scope_maps(s: Seq<NameMap<Type>>) -> Seq<Map<Seq<char>, Type>> {
    s.map_values(|m: NameMap<Type>| m@)
}

/// An error of the typechecker, with the span it concerns.
#[derive(Debug)]
pub struct TypeError {
    pub message: String,
    pub span: Span,
}

/// The signature of a top-level function.
#[derive(Debug)]
pub struct FuncSig {
    pub params: Vec<Type>,
    pub ret: Type,
}

impl FuncSig {
    /// A copy of the signature.
    pub fn copy(&self) -> (r: FuncSig)
        ensures
            tys_eq(r.params@, self.params@),
            ty_eq(r.ret, self.ret),
            r.params@.len() == self.params@.len(),
    {
        FuncSig { params: copy_types(&self.params), ret: self.ret.copy() }
    }
}

/// Variables as the checker sees them: globals, and a stack of scopes (innermost last).
pub type VarsView = (Map<Seq<char>, Type>, Seq<Map<Seq<char>, Type>>);

/// What `name` resolves to in `scopes` (searched innermost first), else in `globals`.
pub open spec fn lookup_var(globals: Map<Seq<char>, Type>, scopes: Seq<Map<Seq<char>, Type>>, name: Seq<char>) -> Option<Type>
    decreases scopes.len(),
{
    if scopes.len() == 0 {
        if globals.contains_key(name) {
            Some(globals[name])
        } else {
            None
        }
    } else if scopes.last().contains_key(name) {
        Some(scopes.last()[name])
    } else {
        lookup_var(globals, scopes.drop_last(), name)
    }
}

/// Binds `name` in the innermost scope, or among the globals when there is no scope.
pub open spec fn define_in(v: VarsView, name: Seq<char>, t: Type) -> VarsView {
    if v.1.len() == 0 {
        (v.0.insert(name, t), v.1)
    } else {
        (v.0, v.1.update(v.1.len() - 1, v.1.last().insert(name, t)))
    }
}

/// A binding just made is what a lookup of its name finds.
pub proof fn lemma_define_then_lookup(v: VarsView, name: Seq<char>, t: Type)
    ensures
        lookup_var(define_in(v, name, t).0, define_in(v, name, t).1, name) == Some(t),
{
}

/// A binding of one name leaves the lookup of every other name unchanged.
pub proof fn lemma_define_keeps_others(v: VarsView, name: Seq<char>, other: Seq<char>, t: Type)
    requires
        other != name,
    ensures
        lookup_var(define_in(v, name, t).0, define_in(v, name, t).1, other) == lookup_var(v.0, v.1, other),
{
    let w = define_in(v, name, t);
    if v.1.len() > 0 {
        assert(w.1.drop_last() =~= v.1.drop_last());
    }
}

/// Entering a scope and binding names in it does not disturb what the enclosing scopes and
/// the globals hold: once the scope is left, every lookup is as before.
pub proof fn lemma_scope_is_local(v: VarsView, name: Seq<char>, t: Type)
    ensures
        ({
            let inner = define_in((v.0, v.1.push(Map::empty())), name, t);
            inner.0 == v.0 && inner.1.drop_last() == v.1
        }),
{
    let inner = define_in((v.0, v.1.push(Map::empty())), name, t);
    assert(inner.1.drop_last() =~= v.1);
}

/// Binds each name of `defs` to its type, in order, as `define_var` does.
pub open spec fn define_all(v: VarsView, defs: Seq<(Seq<char>, Type)>) -> VarsView
    decreases defs.len(),
{
    if defs.len() == 0 {
        v
    } else {
        let w = define_all(v, defs.drop_last());
        define_in(w, defs.last().0, defs.last().1)
    }
}

proof fn lemma_define_all_inner(w: VarsView, defs: Seq<(Seq<char>, Type)>)
    requires
        w.1.len() > 0,
    ensures
        define_all(w, defs).0 == w.0,
        define_all(w, defs).1.len() == w.1.len(),
        define_all(w, defs).1.drop_last() == w.1.drop_last(),
    decreases defs.len(),
{
    if defs.len() > 0 {
        lemma_define_all_inner(w, defs.drop_last());
        let u = define_all(w, defs.drop_last());
        let x = define_in(u, defs.last().0, defs.last().1);
        assert(x.1.drop_last() =~= u.1.drop_last());
    }
}

/// Entering a scope, making any number of bindings (with `define_var`; `define_fn` leaves
/// the variables alone) and leaving the scope again restores every lookup: the bindings made
/// inside are gone, and the outer bindings that they shadowed are found again.
pub proof fn lemma_push_define_pop(v: VarsView, defs: Seq<(Seq<char>, Type)>)
    ensures
        ({
            let inner = define_all((v.0, v.1.push(Map::empty())), defs);
            &&& inner.0 == v.0
            &&& inner.1.len() == v.1.len() + 1
            &&& inner.1.drop_last() == v.1
            &&& (inner.0, inner.1.drop_last()) == v
            &&& forall|name: Seq<char>| #[trigger] lookup_var(inner.0, inner.1.drop_last(), name)
                == lookup_var(v.0, v.1, name)
        }),
{
    let w = (v.0, v.1.push(Map::empty()));
    lemma_define_all_inner(w, defs);
    assert(w.1.drop_last() =~= v.1);
}

/// Variables as views of their types.
pub type TVars = (Map<Seq<char>, TV>, Seq<Map<Seq<char>, TV>>);

/// A function signature as views: parameter types and return type.
pub type Sig = (Seq<TV>, TV);

pub open spec fn map_tv(m: Map<Seq<char>, Type>) -> Map<Seq<char>, TV> {
    m.map_values(|t: Type| tview(t))
}

pub open spec fn maps_tv(s: Seq<Map<Seq<char>, Type>>) -> Seq<Map<Seq<char>, TV>> {
    s.map_values(|m: Map<Seq<char>, Type>| map_tv(m))
}

/// The variables with their types as views.
pub open spec fn vars_tv(v: VarsView) -> TVars {
    (map_tv(v.0), maps_tv(v.1))
}

/// The signatures as views.
pub open spec fn sigs_tv(f: Map<Seq<char>, FuncSig>) -> Map<Seq<char>, Sig> {
    f.map_values(|s: FuncSig| (tviews(s.params@), tview(s.ret)))
}

/// What `name` resolves to: innermost scope first, then the globals.
pub open spec fn lookup_tv(v: TVars, name: Seq<char>) -> Option<TV>
    decreases v.1.len(),
{
    if v.1.len() == 0 {
        if v.0.contains_key(name) {
            Some(v.0[name])
        } else {
            None
        }
    } else if v.1.last().contains_key(name) {
        Some(v.1.last()[name])
    } else {
        lookup_tv((v.0, v.1.drop_last()), name)
    }
}

/// Binds `name` in the innermost scope, or among the globals when there is no scope.
pub open spec fn define_tv(v: TVars, name: Seq<char>, t: TV) -> TVars {
    if v.1.len() == 0 {
        (v.0.insert(name, t), v.1)
    } else {
        (v.0, v.1.update(v.1.len() - 1, v.1.last().insert(name, t)))
    }
}

proof fn lemma_lookup_tv(g: Map<Seq<char>, Type>, s: Seq<Map<Seq<char>, Type>>, k: Seq<char>)
    ensures
        lookup_tv(vars_tv((g, s)), k) == match lookup_var(g, s, k) {
            Some(t) => Some(tview(t)),
            None => None::<TV>,
        },
    decreases s.len(),
{
    if s.len() > 0 {
        lemma_lookup_tv(g, s.drop_last(), k);
        assert(maps_tv(s).drop_last() =~= maps_tv(s.drop_last()));
    }
}

proof fn lemma_define_tv(v: VarsView, k: Seq<char>, t: Type)
    ensures
        vars_tv(define_in(v, k, t)) == define_tv(vars_tv(v), k, tview(t)),
{
    let w = define_in(v, k, t);
    if v.1.len() == 0 {
        assert(map_tv(w.0) =~= map_tv(v.0).insert(k, tview(t)));
    } else {
        assert(map_tv(v.1.last().insert(k, t)) =~= map_tv(v.1.last()).insert(k, tview(t)));
        assert(maps_tv(w.1) =~= maps_tv(v.1).update(v.1.len() - 1, map_tv(v.1.last()).insert(k, tview(t))));
    }
}

/// The environment of the typechecker: global and scoped variables, and top-level functions.
pub struct TypeEnv {
    globals: NameMap<Type>,
    scopes: Vec<NameMap<Type>>,
    funcs: NameMap<FuncSig>,
}

impl TypeEnv {
    /// The global variables.
    pub closed spec fn globals_view(&self) -> Map<Seq<char>, Type> {
        self.globals@
    }

    /// The scopes, innermost last.
    pub closed spec fn scopes_view(&self) -> Seq<Map<Seq<char>, Type>> {
        scope_maps(self.scopes@)
    }

    /// The variables: globals and scopes.
    pub open spec fn vars(&self) -> VarsView {
        (self.globals_view(), self.scopes_view())
    }

    /// The declared functions.
    pub closed spec fn funcs_view(&self) -> Map<Seq<char>, FuncSig> {
        self.funcs@
    }

    /// The variables, as views.
    pub open spec fn tv(&self) -> TVars {
        vars_tv(self.vars())
    }

    /// The function signatures, as views.
    pub open spec fn sigs(&self) -> Map<Seq<char>, Sig> {
        sigs_tv(self.funcs_view())
    }

    /// No map of the environment holds a name twice.
    pub closed spec fn wf(&self) -> bool {
        &&& self.globals.wf()
        &&& self.funcs.wf()
        &&& forall|i: int| 0 <= i < self.scopes@.len() ==> (#[trigger] self.scopes@[i]).wf()
    }

    /// An empty environment.
    pub fn new() -> (env: TypeEnv)
        ensures
            env.wf(),
            env.globals_view() == Map::<Seq<char>, Type>::empty(),
            env.scopes_view() == Seq::<Map<Seq<char>, Type>>::empty(),
            env.funcs_view() == Map::<Seq<char>, FuncSig>::empty(),
    {
        let env = TypeEnv { globals: NameMap::new(), scopes: Vec::new(), funcs: NameMap::new() };
        assert(env.scopes_view() =~= Seq::<Map<Seq<char>, Type>>::empty());
        env
    }

    /// Enters a new, empty scope.
    pub fn push_scope(&mut self)
        requires
            old(self).wf(),
        ensures
            final(self).wf(),
            final(self).globals_view() == old(self).globals_view(),
            final(self).scopes_view() == old(self).scopes_view().push(Map::empty()),
            final(self).funcs_view() == old(self).funcs_view(),
            final(self).tv() == (old(self).tv().0, old(self).tv().1.push(Map::empty())),
    {
        self.scopes.push(NameMap::new());
        assert(self.scopes_view() =~= old(self).scopes_view().push(Map::empty()));
        assert(map_tv(Map::<Seq<char>, Type>::empty()) =~= Map::<Seq<char>, TV>::empty());
        assert(maps_tv(self.scopes_view()) =~= maps_tv(old(self).scopes_view()).push(Map::empty()));
    }

    /// Leaves the innermost scope, if there is one.
    pub fn pop_scope(&mut self)
        requires
            old(self).wf(),
        ensures
            final(self).wf(),
            final(self).globals_view() == old(self).globals_view(),
            final(self).scopes_view() == if old(self).scopes_view().len() == 0 {
                old(self).scopes_view()
            } else {
                old(self).scopes_view().drop_last()
            },
            final(self).funcs_view() == old(self).funcs_view(),
            old(self).scopes_view().len() > 0 ==> final(self).tv() == (old(self).tv().0, old(self).tv().1.drop_last()),
    {
        let _ = self.scopes.pop();
        assert(old(self).scopes_view().len() > 0 ==> maps_tv(old(self).scopes_view().drop_last()) =~= maps_tv(old(self).scopes_view()).drop_last());
        assert(self.scopes_view() =~= if old(self).scopes_view().len() == 0 {
            old(self).scopes_view()
        } else {
            old(self).scopes_view().drop_last()
        });
    }

    /// Binds `name` to `ty` in the innermost scope, or among the globals at top level.
    pub fn define_var(&mut self, name: String, ty: Type)
        requires
            old(self).wf(),
        ensures
            final(self).wf(),
            final(self).vars() == define_in(old(self).vars(), name@, ty),
            final(self).funcs_view() == old(self).funcs_view(),
            final(self).tv() == define_tv(old(self).tv(), name@, tview(ty)),
    {
        proof {
            lemma_define_tv(old(self).vars(), name@, ty);
        }
        let ghost k = name@;
        let ghost t = ty;
        let n = self.scopes.len();
        if n > 0 {
            let mut last = self.scopes.pop().unwrap();
            proof {
                assert(last == old(self).scopes@[n - 1]);
            }
            last.insert(name, ty);
            self.scopes.push(last);
            proof {
                assert(self.scopes@ =~= old(self).scopes@.update(n - 1, last));
                assert(self.scopes_view() =~= old(self).scopes_view().update(
                    n - 1,
                    old(self).scopes_view().last().insert(k, t),
                ));
                assert forall|i: int| 0 <= i < self.scopes@.len() implies (#[trigger] self.scopes@[i]).wf() by {
                    if i != n - 1 {
                        assert(self.scopes@[i] == old(self).scopes@[i]);
                    }
                }
            }
        } else {
            self.globals.insert(name, ty);
        }
    }

    /// The type that `name` resolves to: innermost scope first, then the globals.
    pub fn get_var(&self, name: &str) -> (r: Option<&Type>)
        requires
            self.wf(),
        ensures
            match r {
                Some(t) => lookup_var(self.globals_view(), self.scopes_view(), name@) == Some(*t),
                None => lookup_var(self.globals_view(), self.scopes_view(), name@) is None,
            },
            match r {
                Some(t) => lookup_tv(self.tv(), name@) == Some(tview(*t)),
                None => lookup_tv(self.tv(), name@) is None,
            },
    {
        proof {
            lemma_lookup_tv(self.globals_view(), self.scopes_view(), name@);
        }
        let mut i = self.scopes.len();
        assert(self.scopes_view().take(i as int) =~= self.scopes_view());
        while i > 0
            invariant
                self.wf(),
                i <= self.scopes@.len(),
                lookup_var(self.globals_view(), self.scopes_view(), name@) == lookup_var(
                    self.globals_view(),
                    self.scopes_view().take(i as int),
                    name@,
                ),
            decreases i,
        {
            let ghost pre = self.scopes_view().take(i as int);
            assert(pre.drop_last() =~= self.scopes_view().take(i - 1));
            assert(pre.last() == self.scopes@[i - 1]@);
            match self.scopes[i - 1].get(name) {
                Some(t) => {
                    proof {
                        lemma_lookup_tv(self.globals_view(), self.scopes_view(), name@);
                    }
                    return Some(t);
                },
                None => {},
            }
            i = i - 1;
        }
        assert(self.scopes_view().take(0) =~= Seq::<Map<Seq<char>, Type>>::empty());
        self.globals.get(name)
    }

    /// Declares a top-level function.
    pub fn define_fn(&mut self, name: String, params: Vec<Type>, ret: Type) -> (r: Result<(), TypeError>)
        requires
            old(self).wf(),
        ensures
            final(self).wf(),
            r is Ok,
            final(self).vars() == old(self).vars(),
            final(self).funcs_view() == old(self).funcs_view().insert(
                name@,
                FuncSig { params, ret },
            ),
            final(self).sigs() == old(self).sigs().insert(name@, (tviews(params@), tview(ret))),
    {
        let ghost sig = FuncSig { params, ret };
        assert(sigs_tv(old(self).funcs_view().insert(name@, sig)) =~= old(self).sigs().insert(
            name@,
            (tviews(params@), tview(ret)),
        ));
        self.funcs.insert(name, FuncSig { params, ret });
        Ok(())
    }

    /// The signature of the function `name`, if declared.
    pub fn get_fn(&self, name: &str) -> (r: Option<&FuncSig>)
        requires
            self.wf(),
        ensures
            match r {
                Some(f) => self.funcs_view().contains_key(name@) && *f == self.funcs_view()[name@]
                    && self.sigs().contains_key(name@) && self.sigs()[name@] == (tviews(f.params@), tview(f.ret)),
                None => !self.funcs_view().contains_key(name@) && !self.sigs().contains_key(name@),
            },
    {
        self.funcs.get(name)
    }

    /// Removes and returns all scopes, leaving only the globals visible.
    pub fn take_scopes(&mut self) -> (r: Vec<NameMap<Type>>)
        requires
            old(self).wf(),
        ensures
            final(self).wf(),
            final(self).globals_view() == old(self).globals_view(),
            final(self).scopes_view() == Seq::<Map<Seq<char>, Type>>::empty(),
            final(self).funcs_view() == old(self).funcs_view(),
            final(self).tv() == (old(self).tv().0, Seq::<Map<Seq<char>, TV>>::empty()),
            scope_maps(r@) == old(self).scopes_view(),
            forall|i: int| 0 <= i < r@.len() ==> (#[trigger] r@[i]).wf(),
    {
        let mut r: Vec<NameMap<Type>> = Vec::new();
        std::mem::swap(&mut r, &mut self.scopes);
        assert(self.scopes_view() =~= Seq::<Map<Seq<char>, Type>>::empty());
        assert(maps_tv(self.scopes_view()) =~= Seq::<Map<Seq<char>, TV>>::empty());
        r
    }

    /// Puts back scopes that `take_scopes` removed.
    pub fn restore_scopes(&mut self, scopes: Vec<NameMap<Type>>)
        requires
            old(self).wf(),
            forall|i: int| 0 <= i < scopes@.len() ==> (#[trigger] scopes@[i]).wf(),
        ensures
            final(self).wf(),
            final(self).globals_view() == old(self).globals_view(),
            final(self).scopes_view() == scope_maps(scopes@),
            final(self).funcs_view() == old(self).funcs_view(),
    {
        self.scopes = scopes;
    }
}

} // verus!
