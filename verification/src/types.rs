use vstd::prelude::*;
use crate::text::{string_append, string_push};

verus! {

/// The types of the language.
#[derive(Debug, PartialEq, Eq)]
pub enum Type {
    Int,
    Bool,
    String,
    Unit,
    Never,
    Array(Box<Type>),
    Object(Box<Type>),
    Function { params: Vec<Type>, ret: Box<Type> },
}

/// Structural equality of types (what `==` on `Type` computes).
pub open spec fn ty_eq(a: Type, b: Type) -> bool
    decreases a,
{
    match (a, b) {
        (Type::Int, Type::Int) => true,
        (Type::Bool, Type::Bool) => true,
        (Type::String, Type::String) => true,
        (Type::Unit, Type::Unit) => true,
        (Type::Never, Type::Never) => true,
        (Type::Array(x), Type::Array(y)) => ty_eq(*x, *y),
        (Type::Object(x), Type::Object(y)) => ty_eq(*x, *y),
        (Type::Function { params: pa, ret: ra }, Type::Function { params: pb, ret: rb }) => {
            tys_eq(pa@, pb@) && ty_eq(*ra, *rb)
        },
        _ => false,
    }
}

/// Element-wise structural equality of type lists.
pub open spec fn tys_eq(a: Seq<Type>, b: Seq<Type>) -> bool
    decreases a,
{
    if a.len() == 0 {
        b.len() == 0
    } else {
        b.len() == a.len() && tys_eq(a.drop_last(), b.drop_last()) && ty_eq(a.last(), b.last())
    }
}

/// How a type is written: `Int`, `Array<Int>`, `(Int, Bool) -> Int`, ...
pub open spec fn type_text(t: Type) -> Seq<char>
    decreases t,
{
    match t {
        Type::Int => "Int"@,
        Type::Bool => "Bool"@,
        Type::String => "String"@,
        Type::Unit => "Unit"@,
        Type::Never => "Never"@,
        Type::Array(inner) => "Array<"@ + type_text(*inner) + ">"@,
        Type::Object(inner) => "Object<"@ + type_text(*inner) + ">"@,
        Type::Function { params, ret } => "("@ + types_text(params@) + ") -> "@ + type_text(*ret),
    }
}

/// A list of types separated by `, `.
pub open spec fn types_text(s: Seq<Type>) -> Seq<char>
    decreases s,
{
    if s.len() == 0 {
        Seq::empty()
    } else if s.len() == 1 {
        type_text(s[0])
    } else {
        types_text(s.drop_last()) + ", "@ + type_text(s.last())
    }
}

/// What a type is, as a mathematical value: equal types have equal views.
pub enum TV {
    Int,
    Bool,
    Str,
    Unit,
    Never,
    Array(Box<TV>),
    Object(Box<TV>),
    Function(Seq<TV>, Box<TV>),
}

/// The view of a type.
pub open spec fn tview(t: Type) -> TV
    decreases t,
{
    match t {
        Type::Int => TV::Int,
        Type::Bool => TV::Bool,
        Type::String => TV::Str,
        Type::Unit => TV::Unit,
        Type::Never => TV::Never,
        Type::Array(x) => TV::Array(Box::new(tview(*x))),
        Type::Object(x) => TV::Object(Box::new(tview(*x))),
        Type::Function { params, ret } => TV::Function(tviews(params@), Box::new(tview(*ret))),
    }
}

/// The views of a list of types.
pub open spec fn tviews(s: Seq<Type>) -> Seq<TV>
    decreases s,
{
    if s.len() == 0 {
        Seq::empty()
    } else {
        tviews(s.drop_last()).push(tview(s.last()))
    }
}

/// How a type is written, from its view.
pub open spec fn tv_text(t: TV) -> Seq<char>
    decreases t,
{
    match t {
        TV::Int => "Int"@,
        TV::Bool => "Bool"@,
        TV::Str => "String"@,
        TV::Unit => "Unit"@,
        TV::Never => "Never"@,
        TV::Array(inner) => "Array<"@ + tv_text(*inner) + ">"@,
        TV::Object(inner) => "Object<"@ + tv_text(*inner) + ">"@,
        TV::Function(params, ret) => "("@ + tvs_text(params) + ") -> "@ + tv_text(*ret),
    }
}

/// A list of type views written with `, ` between them.
pub open spec fn tvs_text(s: Seq<TV>) -> Seq<char>
    decreases s,
{
    if s.len() == 0 {
        Seq::empty()
    } else if s.len() == 1 {
        tv_text(s[0])
    } else {
        tvs_text(s.drop_last()) + ", "@ + tv_text(s.last())
    }
}

/// The views of a list have its length, and element `i` is the view of element `i`.
pub proof fn lemma_tviews_index(s: Seq<Type>)
    ensures
        tviews(s).len() == s.len(),
        forall|i: int| 0 <= i < s.len() ==> #[trigger] tviews(s)[i] == tview(s[i]),
    decreases s.len(),
{
    if s.len() > 0 {
        lemma_tviews_index(s.drop_last());
        assert forall|i: int| 0 <= i < s.len() implies #[trigger] tviews(s)[i] == tview(s[i]) by {
            if i < s.len() - 1 {
                assert(s.drop_last()[i] == s[i]);
            }
        }
    }
}

/// Two types are equal exactly when their views are.
pub proof fn lemma_ty_eq_view(a: Type, b: Type)
    ensures
        ty_eq(a, b) <==> tview(a) == tview(b),
    decreases a,
{
    match (a, b) {
        (Type::Array(x), Type::Array(y)) => {
            lemma_ty_eq_view(*x, *y);
        },
        (Type::Object(x), Type::Object(y)) => {
            lemma_ty_eq_view(*x, *y);
        },
        (Type::Function { params: pa, ret: ra }, Type::Function { params: pb, ret: rb }) => {
            lemma_tys_eq_view(pa@, pb@);
            lemma_ty_eq_view(*ra, *rb);
        },
        _ => {},
    }
}

/// Two type lists are equal exactly when their views are.
pub proof fn lemma_tys_eq_view(a: Seq<Type>, b: Seq<Type>)
    ensures
        tys_eq(a, b) <==> tviews(a) == tviews(b),
    decreases a,
{
    lemma_tviews_index(a);
    lemma_tviews_index(b);
    if a.len() > 0 && b.len() == a.len() {
        lemma_tys_eq_view(a.drop_last(), b.drop_last());
        lemma_ty_eq_view(a.last(), b.last());
        if tviews(a) == tviews(b) {
            assert(tviews(a).drop_last() =~= tviews(a.drop_last()));
            assert(tviews(b).drop_last() =~= tviews(b.drop_last()));
            assert(tviews(a)[a.len() - 1] == tview(a.last()));
        }
        if tys_eq(a, b) {
            assert(tviews(a) =~= tviews(b));
        }
    } else if a.len() == 0 && b.len() > 0 {
        assert(tviews(b).len() > 0);
    } else if a.len() > 0 {
        assert(tviews(a).len() != tviews(b).len());
    }
}

/// The written form of a type is the written form of its view.
pub proof fn lemma_text_view(t: Type)
    ensures
        type_text(t) == tv_text(tview(t)),
    decreases t,
{
    match t {
        Type::Array(x) => lemma_text_view(*x),
        Type::Object(x) => lemma_text_view(*x),
        Type::Function { params, ret } => {
            lemma_texts_view(params@);
            lemma_text_view(*ret);
        },
        _ => {},
    }
}

pub proof fn lemma_texts_view(s: Seq<Type>)
    ensures
        types_text(s) == tvs_text(tviews(s)),
    decreases s,
{
    lemma_tviews_index(s);
    if s.len() == 1 {
        lemma_text_view(s[0]);
    } else if s.len() > 1 {
        lemma_texts_view(s.drop_last());
        lemma_text_view(s.last());
        assert(tviews(s).drop_last() =~= tviews(s.drop_last()));
    }
}

/// `ty_eq` is reflexive.
pub proof fn lemma_ty_eq_refl(a: Type)
    ensures
        ty_eq(a, a),
    decreases a,
{
    match a {
        Type::Array(x) => lemma_ty_eq_refl(*x),
        Type::Object(x) => lemma_ty_eq_refl(*x),
        Type::Function { params, ret } => {
            lemma_tys_eq_refl(params@);
            lemma_ty_eq_refl(*ret);
        },
        _ => {},
    }
}

pub proof fn lemma_tys_eq_refl(a: Seq<Type>)
    ensures
        tys_eq(a, a),
    decreases a,
{
    if a.len() > 0 {
        lemma_tys_eq_refl(a.drop_last());
        lemma_ty_eq_refl(a.last());
    }
}

/// `ty_eq` is symmetric.
pub proof fn lemma_ty_eq_symm(a: Type, b: Type)
    requires
        ty_eq(a, b),
    ensures
        ty_eq(b, a),
    decreases a,
{
    match (a, b) {
        (Type::Array(x), Type::Array(y)) => lemma_ty_eq_symm(*x, *y),
        (Type::Object(x), Type::Object(y)) => lemma_ty_eq_symm(*x, *y),
        (Type::Function { params: pa, ret: ra }, Type::Function { params: pb, ret: rb }) => {
            lemma_tys_eq_symm(pa@, pb@);
            lemma_ty_eq_symm(*ra, *rb);
        },
        _ => {},
    }
}

pub proof fn lemma_tys_eq_symm(a: Seq<Type>, b: Seq<Type>)
    requires
        tys_eq(a, b),
    ensures
        tys_eq(b, a),
    decreases a,
{
    if a.len() > 0 {
        lemma_tys_eq_symm(a.drop_last(), b.drop_last());
        lemma_ty_eq_symm(a.last(), b.last());
    }
}

/// `ty_eq` is transitive.
pub proof fn lemma_ty_eq_trans(a: Type, b: Type, c: Type)
    requires
        ty_eq(a, b),
        ty_eq(b, c),
    ensures
        ty_eq(a, c),
    decreases a,
{
    match (a, b, c) {
        (Type::Array(x), Type::Array(y), Type::Array(z)) => lemma_ty_eq_trans(*x, *y, *z),
        (Type::Object(x), Type::Object(y), Type::Object(z)) => lemma_ty_eq_trans(*x, *y, *z),
        (
            Type::Function { params: pa, ret: ra },
            Type::Function { params: pb, ret: rb },
            Type::Function { params: pc, ret: rc },
        ) => {
            lemma_tys_eq_trans(pa@, pb@, pc@);
            lemma_ty_eq_trans(*ra, *rb, *rc);
        },
        _ => {},
    }
}

pub proof fn lemma_tys_eq_trans(a: Seq<Type>, b: Seq<Type>, c: Seq<Type>)
    requires
        tys_eq(a, b),
        tys_eq(b, c),
    ensures
        tys_eq(a, c),
    decreases a,
{
    if a.len() > 0 {
        lemma_tys_eq_trans(a.drop_last(), b.drop_last(), c.drop_last());
        lemma_ty_eq_trans(a.last(), b.last(), c.last());
    }
}

/// Type lists that agree element-wise are equal.
pub proof fn lemma_tys_eq_pointwise(a: Seq<Type>, b: Seq<Type>)
    requires
        a.len() == b.len(),
        forall|i: int| 0 <= i < a.len() ==> ty_eq(#[trigger] a[i], b[i]),
    ensures
        tys_eq(a, b),
    decreases a,
{
    if a.len() > 0 {
        let a2 = a.drop_last();
        let b2 = b.drop_last();
        assert forall|i: int| 0 <= i < a2.len() implies ty_eq(#[trigger] a2[i], b2[i]) by {
            assert(a2[i] == a[i]);
            assert(b2[i] == b[i]);
        }
        lemma_tys_eq_pointwise(a2, b2);
        assert(ty_eq(a[a.len() - 1], b[a.len() - 1]));
    }
}

/// Equal type lists agree element-wise.
pub proof fn lemma_tys_eq_index(a: Seq<Type>, b: Seq<Type>, i: int)
    requires
        tys_eq(a, b),
        0 <= i < a.len(),
    ensures
        a.len() == b.len(),
        ty_eq(a[i], b[i]),
    decreases a,
{
    if i < a.len() - 1 {
        lemma_tys_eq_index(a.drop_last(), b.drop_last(), i);
        assert(a.drop_last()[i] == a[i]);
        assert(b.drop_last()[i] == b[i]);
    }
}

impl Type {
    /// A copy of the type.
    pub fn copy(&self) -> (r: Type)
        ensures
            ty_eq(r, *self),
            ty_eq(*self, r),
            tview(r) == tview(*self),
        decreases self,
    {
        let r = match self {
            Type::Int => Type::Int,
            Type::Bool => Type::Bool,
            Type::String => Type::String,
            Type::Unit => Type::Unit,
            Type::Never => Type::Never,
            Type::Array(inner) => Type::Array(Box::new(inner.copy())),
            Type::Object(inner) => Type::Object(Box::new(inner.copy())),
            Type::Function { params, ret } => {
                let ps = copy_types(params);
                Type::Function { params: ps, ret: Box::new(ret.copy()) }
            },
        };
        proof {
            lemma_ty_eq_symm(r, *self);
            lemma_ty_eq_view(r, *self);
        }
        r
    }

    /// `==` on types.
    pub fn equals(&self, other: &Type) -> (r: bool)
        ensures
            r == ty_eq(*self, *other),
            r == (tview(*self) == tview(*other)),
        decreases self,
    {
        proof {
            lemma_ty_eq_view(*self, *other);
        }
        match (self, other) {
            (Type::Int, Type::Int) => true,
            (Type::Bool, Type::Bool) => true,
            (Type::String, Type::String) => true,
            (Type::Unit, Type::Unit) => true,
            (Type::Never, Type::Never) => true,
            (Type::Array(x), Type::Array(y)) => x.equals(&**y),
            (Type::Object(x), Type::Object(y)) => x.equals(&**y),
            (Type::Function { params: pa, ret: ra }, Type::Function { params: pb, ret: rb }) => {
                types_equal(pa, pb) && ra.equals(&**rb)
            },
            _ => false,
        }
    }

    /// The written form of the type (what `Display` shows).
    pub fn to_text(&self) -> (s: String)
        ensures
            s@ == type_text(*self),
            s@ == tv_text(tview(*self)),
    {
        proof {
            lemma_text_view(*self);
        }
        let mut s = String::new();
        self.push_text(&mut s);
        assert(s@ =~= type_text(*self));
        s
    }

    fn push_text(&self, s: &mut String)
        ensures
            final(s)@ == old(s)@ + type_text(*self),
        decreases self,
    {
        proof {
            reveal_strlit("Int");
            reveal_strlit("Bool");
            reveal_strlit("String");
            reveal_strlit("Unit");
            reveal_strlit("Never");
            reveal_strlit("Array<");
            reveal_strlit("Object<");
            reveal_strlit(">");
            reveal_strlit("(");
            reveal_strlit(") -> ");
            reveal_strlit(", ");
        }
        match self {
            Type::Int => string_append(s, "Int"),
            Type::Bool => string_append(s, "Bool"),
            Type::String => string_append(s, "String"),
            Type::Unit => string_append(s, "Unit"),
            Type::Never => string_append(s, "Never"),
            Type::Array(inner) => {
                string_append(s, "Array<");
                inner.push_text(s);
                string_append(s, ">");
                assert(final(s)@ =~= old(s)@ + type_text(*self));
            },
            Type::Object(inner) => {
                string_append(s, "Object<");
                inner.push_text(s);
                string_append(s, ">");
                assert(final(s)@ =~= old(s)@ + type_text(*self));
            },
            Type::Function { params, ret } => {
                string_append(s, "(");
                push_types_text(params, s);
                string_append(s, ") -> ");
                ret.push_text(s);
                assert(final(s)@ =~= old(s)@ + type_text(*self));
            },
        }
    }
}

/// `==` on lists of types.
pub fn types_equal(pa: &Vec<Type>, pb: &Vec<Type>) -> (r: bool)
    ensures
        r == tys_eq(pa@, pb@),
    decreases pa@,
{
    if pa.len() != pb.len() {
        proof {
            if tys_eq(pa@, pb@) && pa@.len() > 0 {
                lemma_tys_eq_index(pa@, pb@, 0);
            }
        }
        return false;
    }
    let mut i: usize = 0;
    while i < pa.len()
        invariant
            i <= pa@.len(),
            pa@.len() == pb@.len(),
            forall|j: int| 0 <= j < i ==> ty_eq(#[trigger] pa@[j], pb@[j]),
        decreases pa@.len() - i,
    {
        proof {
            assert(decreases_to!(pa@ => pa@[i as int]));
        }
        if !pa[i].equals(&pb[i]) {
            proof {
                if tys_eq(pa@, pb@) {
                    lemma_tys_eq_index(pa@, pb@, i as int);
                }
            }
            return false;
        }
        i = i + 1;
    }
    proof {
        lemma_tys_eq_pointwise(pa@, pb@);
    }
    true
}

/// Appends the written form of a list of types, separated by `, `.
fn push_types_text(params: &Vec<Type>, s: &mut String)
    ensures
        final(s)@ == old(s)@ + types_text(params@),
    decreases params@,
{
    let ghost start = s@;
    let mut i: usize = 0;
    assert(params@.take(0) =~= Seq::<Type>::empty());
    while i < params.len()
        invariant
            i <= params@.len(),
            s@ == start + types_text(params@.take(i as int)),
        decreases params@.len() - i,
    {
        proof {
            assert(decreases_to!(params@ => params@[i as int]));
            reveal_strlit(", ");
        }
        if i > 0 {
            string_append(s, ", ");
        }
        params[i].push_text(s);
        proof {
            let t = params@.take(i + 1);
            assert(t.drop_last() =~= params@.take(i as int));
            assert(t.last() == params@[i as int]);
            assert(s@ =~= start + types_text(t));
        }
        i = i + 1;
    }
    assert(params@.take(params@.len() as int) =~= params@);
}

/// Copies a list of types.
pub fn copy_types(ts: &Vec<Type>) -> (r: Vec<Type>)
    ensures
        tys_eq(r@, ts@),
        tys_eq(ts@, r@),
        r@.len() == ts@.len(),
        tviews(r@) == tviews(ts@),
    decreases ts@,
{
    let mut r: Vec<Type> = Vec::new();
    let mut i: usize = 0;
    while i < ts.len()
        invariant
            i <= ts@.len(),
            r@.len() == i,
            forall|j: int| 0 <= j < i ==> ty_eq(#[trigger] r@[j], ts@[j]),
        decreases ts@.len() - i,
    {
        proof {
            assert(decreases_to!(ts@ => ts@[i as int]));
        }
        let t = ts[i].copy();
        r.push(t);
        i = i + 1;
    }
    proof {
        lemma_tys_eq_pointwise(r@, ts@);
        lemma_tys_eq_symm(r@, ts@);
        lemma_tys_eq_view(r@, ts@);
    }
    r
}

} // verus!
